//! The listing of a scan's files: what is folded away, what a search finds, and in which order the
//! rest is shown.
use vstd::hash_map::StringHashMap;
use vstd::hash_set::StringHashSet;
use vstd::prelude::*;

use crate::db::StoredFileEntry;
use crate::paths::{lies_below, PathSet};
use crate::sort::{covers, goes_before, sorted_order, Alphabetical, LargestFirst, SortKey};
use crate::text::{contains_part, has_part, text_le, to_chars};

pub use crate::ui::types::SortMode;

verus! {

/// The entries behind some references.
pub open spec fn entries_of(v: Seq<&StoredFileEntry>) -> Seq<StoredFileEntry> {
    Seq::new(v.len(), |i: int| *v[i])
}

/// Whether `path` has a slash at `p`.
pub open spec fn cut_at(path: Seq<char>, p: int) -> bool {
    0 <= p < path.len() && path[p] == '/'
}

/// Whether a directory above `path` is folded.
pub open spec fn hidden(path: Seq<char>, folded: Set<Seq<char>>) -> bool {
    exists|above: Seq<char>| #[trigger] folded.contains(above) && lies_below(path, above)
}

/// What lies above a path is the path up to one of its slashes, or the root of the file system.
proof fn lemma_above(path: Seq<char>, above: Seq<char>)
    ensures
        lies_below(path, above) <==> {
            ||| (cut_at(path, above.len() as int) && above == path.take(above.len() as int))
            ||| (above == "/"@ && path.len() > 1 && path[0] == '/')
        },
{
    reveal_strlit("/");
    assert("/"@ =~= seq!['/']);
    let n = above.len() as int;
    if above == "/"@ {
        assert("/"@.is_prefix_of(path) <==> path.len() >= 1 && path[0] == '/') by {
            if path.len() >= 1 && path[0] == '/' {
                assert(path.take(1) =~= "/"@);
            }
            if "/"@.is_prefix_of(path) {
                assert(path[0] == "/"@[0]);
            }
        }
        if path.len() == 1 && path[0] == '/' {
            assert(path =~= above);
        }
        if cut_at(path, n) && above == path.take(n) {
            assert(path.take(n)[0] == path[0]);
        }
    } else {
        let start = above.push('/');
        if start.is_prefix_of(path) {
            assert(start[n] == path[n]);
            assert(path.take(n) =~= above) by {
                assert forall|k: int| 0 <= k < n implies path[k] == above[k] by {
                    assert(start[k] == path[k]);
                }
            }
        }
        if cut_at(path, n) && above == path.take(n) {
            assert(path.take(n + 1) =~= start);
        }
    }
}

/// The parent of a path: all before its last slash.
pub open spec fn parent_of(path: Seq<char>) -> Option<Seq<char>>
    decreases path.len(),
{
    if path.len() == 0 {
        None
    } else if path.last() == '/' {
        Some(path.drop_last())
    } else {
        parent_of(path.drop_last())
    }
}

/// Where the last slash before the `n`th character stands.
fn last_slash(chars: &Vec<char>, n: usize) -> (p: Option<usize>)
    requires
        n <= chars@.len(),
    ensures
        match p {
            Some(p) => {
                &&& p < n
                &&& cut_at(chars@, p as int)
                &&& parent_of(chars@.take(n as int)) == Some(chars@.take(p as int))
                &&& forall|q: int| p < q < n ==> chars@[q] != '/'
            },
            None => {
                &&& parent_of(chars@.take(n as int)) is None
                &&& forall|q: int| 0 <= q < n ==> chars@[q] != '/'
            },
        },
{
    let mut m: usize = n;
    while m > 0
        invariant
            m <= n <= chars@.len(),
            parent_of(chars@.take(n as int)) == parent_of(chars@.take(m as int)),
            forall|q: int| m <= q < n ==> chars@[q] != '/',
        decreases m,
    {
        assert(chars@.take(m as int).drop_last() =~= chars@.take(m - 1));
        if chars[m - 1] == '/' {
            return Some(m - 1);
        }
        m = m - 1;
    }
    None
}

/// The parent of a path, which is all before its last slash.
pub fn get_parent_path(path: &str) -> (parent: Option<&str>)
    ensures
        match parent {
            Some(p) => parent_of(path@) == Some(p@),
            None => parent_of(path@) is None,
        },
{
    let chars = to_chars(path);
    assert(chars@.take(chars@.len() as int) =~= chars@);
    match last_slash(&chars, chars.len()) {
        Some(p) => {
            let parent = path.substring_char(0, p);
            assert(parent@ =~= chars@.take(p as int));
            Some(parent)
        },
        None => None,
    }
}

/// Whether an entry is hidden because a directory above it is folded.
pub fn is_entry_hidden(entry: &StoredFileEntry, folded: &PathSet) -> (b: bool)
    ensures
        b == hidden(entry.path@, folded@),
{
    let chars = to_chars(entry.path.as_str());
    let mut above = String::new();
    let mut i: usize = 0;
    assert(above@ =~= chars@.take(0));
    while i < chars.len()
        invariant
            i <= chars@.len(),
            chars@ == entry.path@,
            above@ == chars@.take(i as int),
            forall|p: int|
                0 <= p < i && cut_at(chars@, p) ==> !folded@.contains(#[trigger] chars@.take(p)),
        decreases chars@.len() - i,
    {
        if chars[i] == '/' && folded.contains(above.as_str()) {
            proof {
                lemma_above(entry.path@, above@);
            }
            return true;
        }
        above.push(chars[i]);
        assert(above@ =~= chars@.take(i + 1));
        i = i + 1;
    }
    let under_root = chars.len() > 1 && chars[0] == '/' && folded.contains("/");
    proof {
        lemma_above(entry.path@, "/"@);
        assert forall|s: Seq<char>| #[trigger] folded@.contains(s) && lies_below(
            entry.path@,
            s,
        ) implies under_root by {
            lemma_above(entry.path@, s);
            assert(chars@.take(s.len() as int) == entry.path@.take(s.len() as int));
        }
    }
    under_root
}

/// What `str::to_lowercase` makes of a text.
pub uninterp spec fn lowercase(text: Seq<char>) -> Seq<char>;

/// Calls `str::to_lowercase`. The result is `lowercase` of the text, which alone it depends on.
#[verifier::external_body]
fn to_lower(text: &str) -> (lower: String)
    ensures
        lower@ == lowercase(text@),
{
    text.to_lowercase()
}

/// An entry's name and path in lower case.
pub struct Lowered {
    pub name: String,
    pub path: String,
}

/// Whether a search for `query`, in lower case, finds the name or the path.
pub open spec fn found(lowered: (Seq<char>, Seq<char>), query: Seq<char>) -> bool {
    has_part(lowered.0, query) || has_part(lowered.1, query)
}

/// Names and paths as texts.
pub open spec fn lowered_texts(lowered: Seq<Lowered>) -> Seq<(Seq<char>, Seq<char>)> {
    Seq::new(lowered.len(), |i: int| (lowered[i].name@, lowered[i].path@))
}

/// Whether the `i`th entry is shown by a search: it is found, or one with its path is, or it lies
/// above one that is.
pub open spec fn search_shows(
    entries: Seq<StoredFileEntry>,
    lowered: Seq<(Seq<char>, Seq<char>)>,
    query: Seq<char>,
    i: int,
) -> bool {
    exists|m: int|
        0 <= m < entries.len() && found(#[trigger] lowered[m], query) && (entries[m].path@
            == entries[i].path@ || lies_below(entries[m].path@, entries[i].path@))
}

/// The indices below `n` that hold, in order.
pub open spec fn chosen(holds: spec_fn(int) -> bool, n: nat) -> Seq<int>
    decreases n,
{
    if n == 0 {
        Seq::empty()
    } else {
        let before = chosen(holds, (n - 1) as nat);
        if holds(n - 1) {
            before.push(n - 1)
        } else {
            before
        }
    }
}

/// The elements at some places.
pub open spec fn at_places<T>(s: Seq<T>, places: Seq<int>) -> Seq<T> {
    Seq::new(places.len(), |i: int| s[places[i]])
}

/// What is left of `entries` when what lies under a folded directory is taken away.
pub open spec fn unfolded(entries: Seq<StoredFileEntry>, folded: Set<Seq<char>>) -> Seq<
    StoredFileEntry,
> {
    at_places(entries, chosen(|i: int| !hidden(entries[i].path@, folded), entries.len()))
}

/// What a search leaves of `entries`, whose names and paths in lower case are `lowered`.
pub open spec fn searched(
    entries: Seq<StoredFileEntry>,
    lowered: Seq<(Seq<char>, Seq<char>)>,
    query: Seq<char>,
) -> Seq<StoredFileEntry> {
    at_places(entries, chosen(|i: int| search_shows(entries, lowered, query, i), entries.len()))
}

/// The entries that are not folded away.
pub fn unfolded_entries<'a>(entries: &'a [StoredFileEntry], folded: &PathSet) -> (shown: Vec<
    &'a StoredFileEntry,
>)
    ensures
        entries_of(shown@) == unfolded(entries@, folded@),
{
    let ghost holds = |i: int| !hidden(entries@[i].path@, folded@);
    let mut shown: Vec<&'a StoredFileEntry> = Vec::new();
    let mut i: usize = 0;
    assert(entries_of(shown@) =~= at_places(entries@, chosen(holds, 0)));
    while i < entries.len()
        invariant
            i <= entries@.len(),
            holds == |i: int| !hidden(entries@[i].path@, folded@),
            entries_of(shown@) == at_places(entries@, chosen(holds, i as nat)),
        decreases entries@.len() - i,
    {
        let ghost before = entries_of(shown@);
        let ghost places = chosen(holds, i as nat);
        if !is_entry_hidden(&entries[i], folded) {
            shown.push(&entries[i]);
            assert(chosen(holds, (i + 1) as nat) == places.push(i as int));
            assert(entries_of(shown@) =~= before.push(entries@[i as int]));
            assert(at_places(entries@, places.push(i as int)) =~= before.push(entries@[i as int]));
        } else {
            assert(chosen(holds, (i + 1) as nat) == places);
        }
        i = i + 1;
    }
    shown
}

/// Whether `s` is the path of one of the first `n` entries that are found, or lies above one.
spec fn wanted(
    entries: Seq<StoredFileEntry>,
    lowered: Seq<(Seq<char>, Seq<char>)>,
    query: Seq<char>,
    n: int,
    s: Seq<char>,
) -> bool {
    exists|m: int|
        0 <= m < n && found(#[trigger] lowered[m], query) && (entries[m].path@ == s || lies_below(
            entries[m].path@,
            s,
        ))
}

fn insert_with_ancestors(paths: &mut StringHashSet, path: &str)
    ensures
        forall|s: Seq<char>| #[trigger]
            final(paths)@.contains(s) <==> old(paths)@.contains(s) || s == path@ || lies_below(
                path@,
                s,
            ),
{
    let chars = to_chars(path);
    let mut above = String::new();
    let mut i: usize = 0;
    assert(above@ =~= chars@.take(0));
    while i < chars.len()
        invariant
            i <= chars@.len(),
            chars@ == path@,
            above@ == chars@.take(i as int),
            forall|s: Seq<char>| #[trigger]
                paths@.contains(s) <==> old(paths)@.contains(s) || exists|p: int|
                    p < i && cut_at(path@, p) && s == #[trigger] path@.take(p),
        decreases chars@.len() - i,
    {
        let ghost before = paths@;
        if chars[i] == '/' {
            let _new = paths.insert(above.clone());
            assert forall|s: Seq<char>| #[trigger]
                paths@.contains(s) <==> old(paths)@.contains(s) || exists|p: int|
                    p < i + 1 && cut_at(path@, p) && s == #[trigger] path@.take(p) by {
                if s == above@ {
                    assert(cut_at(path@, i as int) && s == path@.take(i as int));
                } else {
                    assert(before.contains(s) == paths@.contains(s));
                }
            }
        }
        above.push(chars[i]);
        assert(above@ =~= chars@.take(i + 1));
        i = i + 1;
    }
    let ghost cut = paths@;
    if chars.len() > 1 && chars[0] == '/' {
        let _new = paths.insert("/".to_owned());
    }
    let ghost before = paths@;
    let _new = paths.insert(path.to_owned());
    assert forall|s: Seq<char>| #[trigger]
        paths@.contains(s) <==> old(paths)@.contains(s) || s == path@ || lies_below(path@, s) by {
        lemma_above(path@, s);
        if cut_at(path@, s.len() as int) && s == path@.take(s.len() as int) {
            assert(cut.contains(s));
        }
        if cut.contains(s) && !old(paths)@.contains(s) {
            let p = choose|p: int|
                p < chars@.len() && cut_at(path@, p) && s == #[trigger] path@.take(p);
            assert(s.len() == p);
        }
    }
}

/// The entries that a search for `query` shows: those that it finds, and those above them. The
/// names and paths in lower case come in `lowered`, and `query` is in lower case.
pub fn apply_search_filter<'a>(
    entries: &Vec<&'a StoredFileEntry>,
    lowered: &Vec<Lowered>,
    query: &str,
) -> (shown: Vec<&'a StoredFileEntry>)
    requires
        lowered@.len() == entries@.len(),
    ensures
        entries_of(shown@) == searched(entries_of(entries@), lowered_texts(lowered@), query@),
{
    let ghost all = entries_of(entries@);
    let ghost low = lowered_texts(lowered@);
    let mut paths = StringHashSet::new();
    let mut m: usize = 0;
    while m < entries.len()
        invariant
            m <= entries@.len(),
            lowered@.len() == entries@.len(),
            low == lowered_texts(lowered@),
            all == entries_of(entries@),
            forall|s: Seq<char>| #[trigger]
                paths@.contains(s) <==> wanted(all, low, query@, m as int, s),
        decreases entries@.len() - m,
    {
        let ghost before = paths@;
        let l = &lowered[m];
        if contains_part(l.name.as_str(), query) || contains_part(l.path.as_str(), query) {
            insert_with_ancestors(&mut paths, entries[m].path.as_str());
            assert forall|s: Seq<char>| #[trigger]
                paths@.contains(s) <==> wanted(all, low, query@, m + 1, s) by {
                assert(found(low[m as int], query@));
                assert(all[m as int].path@ == entries@[m as int].path@);
                if wanted(all, low, query@, m as int, s) {
                    let w = choose|w: int|
                        0 <= w < m && found(#[trigger] low[w], query@) && (all[w].path@ == s
                            || lies_below(all[w].path@, s));
                    assert(found(low[w], query@));
                }
                assert(before.contains(s) == wanted(all, low, query@, m as int, s));
            }
        } else {
            assert forall|s: Seq<char>| #[trigger]
                paths@.contains(s) <==> wanted(all, low, query@, m + 1, s) by {
                if wanted(all, low, query@, m + 1, s) {
                    let w = choose|w: int|
                        0 <= w < m + 1 && found(#[trigger] low[w], query@) && (all[w].path@
                            == s || lies_below(all[w].path@, s));
                    assert(w < m);
                    assert(wanted(all, low, query@, m as int, s));
                }
                if wanted(all, low, query@, m as int, s) {
                    let w = choose|w: int|
                        0 <= w < m && found(#[trigger] low[w], query@) && (all[w].path@ == s
                            || lies_below(all[w].path@, s));
                    assert(found(low[w], query@));
                }
            }
        }
        m = m + 1;
    }
    let ghost holds = |i: int| search_shows(all, low, query@, i);
    let mut shown: Vec<&'a StoredFileEntry> = Vec::new();
    let mut i: usize = 0;
    assert(entries_of(shown@) =~= at_places(all, chosen(holds, 0)));
    while i < entries.len()
        invariant
            i <= entries@.len(),
            all == entries_of(entries@),
            holds == |i: int| search_shows(all, low, query@, i),
            forall|s: Seq<char>| #[trigger]
                paths@.contains(s) <==> wanted(all, low, query@, all.len() as int, s),
            entries_of(shown@) == at_places(all, chosen(holds, i as nat)),
        decreases entries@.len() - i,
    {
        let ghost before = entries_of(shown@);
        let ghost places = chosen(holds, i as nat);
        let ghost s = all[i as int].path@;
        let keep = paths.contains(entries[i].path.as_str());
        assert(keep == holds(i as int)) by {
            assert(keep == wanted(all, low, query@, all.len() as int, s));
        }
        if keep {
            shown.push(entries[i]);
            assert(chosen(holds, (i + 1) as nat) == places.push(i as int));
            assert(entries_of(shown@) =~= before.push(all[i as int]));
            assert(at_places(all, places.push(i as int)) =~= before.push(all[i as int]));
        } else {
            assert(chosen(holds, (i + 1) as nat) == places);
        }
        i = i + 1;
    }
    shown
}

/// The names and paths of the entries in lower case.
pub open spec fn lowered_of(entries: Seq<StoredFileEntry>) -> Seq<(Seq<char>, Seq<char>)> {
    Seq::new(
        entries.len(),
        |i: int| (lowercase(entries[i].name@), lowercase(entries[i].path@)),
    )
}

fn lower_entries(entries: &Vec<&StoredFileEntry>) -> (lowered: Vec<Lowered>)
    ensures
        lowered_texts(lowered@) == lowered_of(entries_of(entries@)),
{
    let mut lowered: Vec<Lowered> = Vec::new();
    let mut i: usize = 0;
    while i < entries.len()
        invariant
            i <= entries@.len(),
            lowered@.len() == i,
            forall|j: int|
                0 <= j < i ==> (#[trigger] lowered@[j]).name@ == lowercase(entries@[j].name@)
                    && lowered@[j].path@ == lowercase(entries@[j].path@),
        decreases entries@.len() - i,
    {
        lowered.push(
            Lowered {
                name: to_lower(entries[i].name.as_str()),
                path: to_lower(entries[i].path.as_str()),
            },
        );
        i = i + 1;
    }
    assert(lowered_texts(lowered@) =~= lowered_of(entries_of(entries@)));
    lowered
}

/// Whether the `i`th entry comes before the `j`th when entries are ordered by path; of two with
/// one path the earlier one comes first.
pub open spec fn path_before(entries: Seq<StoredFileEntry>, i: int, j: int) -> bool {
    text_le(entries[i].path@, entries[j].path@) && (text_le(entries[j].path@, entries[i].path@)
        ==> i < j)
}

/// Whether the `i`th entry comes before the `j`th when the largest come first; of two of one size
/// the earlier one comes first.
pub open spec fn size_before(entries: Seq<StoredFileEntry>, i: int, j: int) -> bool {
    entries[i].size > entries[j].size || (entries[i].size == entries[j].size && i < j)
}

/// `order` lists every entry, in the order of their paths.
pub open spec fn is_path_order(entries: Seq<StoredFileEntry>, order: Seq<usize>) -> bool {
    &&& covers(order, 0, entries.len() as int)
    &&& forall|a: int, b: int|
        0 <= a < b < order.len() ==> path_before(
            entries,
            #[trigger] order[a] as int,
            #[trigger] order[b] as int,
        )
}

/// `order` lists every entry, the largest first.
pub open spec fn is_size_order(entries: Seq<StoredFileEntry>, order: Seq<usize>) -> bool {
    &&& covers(order, 0, entries.len() as int)
    &&& forall|a: int, b: int|
        0 <= a < b < order.len() ==> size_before(
            entries,
            #[trigger] order[a] as int,
            #[trigger] order[b] as int,
        )
}

/// The elements in another order.
pub open spec fn reordered(entries: Seq<StoredFileEntry>, order: Seq<usize>) -> Seq<
    StoredFileEntry,
> {
    Seq::new(order.len(), |i: int| entries[order[i] as int])
}

fn path_order(entries: &Vec<&StoredFileEntry>) -> (order: Vec<usize>)
    ensures
        is_path_order(entries_of(entries@), order@),
{
    let ghost all = entries_of(entries@);
    let mut keys: Vec<Alphabetical> = Vec::new();
    let mut i: usize = 0;
    while i < entries.len()
        invariant
            i <= entries@.len(),
            keys@.len() == i,
            forall|j: int| 0 <= j < i ==> (#[trigger] keys@[j]).chars@ == entries@[j].path@,
        decreases entries@.len() - i,
    {
        keys.push(Alphabetical { chars: to_chars(entries[i].path.as_str()) });
        i = i + 1;
    }
    let order = sorted_order(&keys);
    assert forall|a: int, b: int| 0 <= a < b < order@.len() implies path_before(
        all,
        #[trigger] order@[a] as int,
        #[trigger] order@[b] as int,
    ) by {
        assert(goes_before(keys@, order@[a] as int, order@[b] as int));
    }
    order
}

fn size_order(entries: &Vec<&StoredFileEntry>) -> (order: Vec<usize>)
    ensures
        is_size_order(entries_of(entries@), order@),
{
    let ghost all = entries_of(entries@);
    let mut keys: Vec<LargestFirst> = Vec::new();
    let mut i: usize = 0;
    while i < entries.len()
        invariant
            i <= entries@.len(),
            keys@.len() == i,
            forall|j: int| 0 <= j < i ==> (#[trigger] keys@[j]).size == entries@[j].size,
        decreases entries@.len() - i,
    {
        keys.push(LargestFirst { size: entries[i].size });
        i = i + 1;
    }
    let order = sorted_order(&keys);
    assert forall|a: int, b: int| 0 <= a < b < order@.len() implies size_before(
        all,
        #[trigger] order@[a] as int,
        #[trigger] order@[b] as int,
    ) by {
        assert(goes_before(keys@, order@[a] as int, order@[b] as int));
    }
    order
}

fn pick<'a>(entries: &Vec<&'a StoredFileEntry>, order: &Vec<usize>) -> (picked: Vec<
    &'a StoredFileEntry,
>)
    requires
        forall|i: int| 0 <= i < order@.len() ==> (#[trigger] order@[i]) < entries@.len(),
    ensures
        entries_of(picked@) == reordered(entries_of(entries@), order@),
{
    let mut picked: Vec<&'a StoredFileEntry> = Vec::new();
    let mut i: usize = 0;
    while i < order.len()
        invariant
            i <= order@.len(),
            picked@.len() == i,
            forall|j: int| 0 <= j < order@.len() ==> (#[trigger] order@[j]) < entries@.len(),
            forall|j: int| 0 <= j < i ==> #[trigger] picked@[j] == entries@[order@[j] as int],
        decreases order@.len() - i,
    {
        picked.push(entries[order[i]]);
        i = i + 1;
    }
    assert(entries_of(picked@) =~= reordered(entries_of(entries@), order@));
    picked
}

/// Whether the entry's parent is the directory at `path`.
pub open spec fn is_child(entry: StoredFileEntry, path: Seq<char>) -> bool {
    entry.parent_path is Some && entry.parent_path->0@ == path
}

/// The children of the directory at `path`, in the order in which `order` lists them.
pub open spec fn children_at(
    entries: Seq<StoredFileEntry>,
    order: Seq<usize>,
    path: Seq<char>,
) -> Seq<usize>
    decreases order.len(),
{
    if order.len() == 0 {
        Seq::empty()
    } else {
        let before = children_at(entries, order.drop_last(), path);
        if is_child(entries[order.last() as int], path) {
            before.push(order.last())
        } else {
            before
        }
    }
}

/// What is listed after the `i`th entry and all below it have been listed, which follows `done`.
/// An entry that is listed is not listed again.
pub open spec fn visit(
    entries: Seq<StoredFileEntry>,
    order: Seq<usize>,
    i: usize,
    done: Seq<usize>,
) -> Seq<usize>
    decreases entries.len() - done.len(), 0nat,
{
    if done.contains(i) || done.len() >= entries.len() {
        done
    } else {
        visit_all(
            entries,
            order,
            children_at(entries, order, entries[i as int].path@),
            0,
            done.push(i),
        )
    }
}

/// What is listed after the children from the `k`th on, and all below them, have been listed.
/// What is listed never shrinks nor outgrows the entries, so the listing always goes on.
pub open spec fn visit_all(
    entries: Seq<StoredFileEntry>,
    order: Seq<usize>,
    children: Seq<usize>,
    k: nat,
    done: Seq<usize>,
) -> Seq<usize>
    decreases entries.len() - done.len(), 1 + children.len() - k,
{
    if k >= children.len() {
        done
    } else {
        let next = visit(entries, order, children[k as int], done);
        if next.len() < done.len() || next.len() > entries.len() {
            done
        } else {
            visit_all(entries, order, children, k + 1, next)
        }
    }
}

/// Whether no entry has the path of the `i`th entry's parent, or the entry lies at depth zero.
pub open spec fn is_root(entries: Seq<StoredFileEntry>, i: int) -> bool {
    ||| entries[i].depth == 0
    ||| entries[i].parent_path is None
    ||| forall|j: int|
        0 <= j < entries.len() ==> (#[trigger] entries[j]).path@ != entries[i].parent_path->0@
}

/// What is listed after the roots among the first `n` entries of `order`, and all below them.
pub open spec fn visit_roots(entries: Seq<StoredFileEntry>, order: Seq<usize>, n: nat) -> Seq<usize>
    decreases n,
{
    if n == 0 {
        Seq::empty()
    } else {
        let done = visit_roots(entries, order, (n - 1) as nat);
        if is_root(entries, order[n - 1] as int) {
            visit(entries, order, order[n - 1], done)
        } else {
            done
        }
    }
}

/// The entries in the order `listed`; the places after its end keep their entries.
pub open spec fn overlaid(entries: Seq<StoredFileEntry>, listed: Seq<usize>) -> Seq<
    StoredFileEntry,
> {
    Seq::new(
        entries.len(),
        |i: int|
            if i < listed.len() {
                entries[listed[i] as int]
            } else {
                entries[i]
            },
    )
}

/// What has been listed holds places of entries, none twice.
pub open spec fn valid_listing(n: nat, done: Seq<usize>) -> bool {
    &&& done.no_duplicates()
    &&& forall|i: int| 0 <= i < done.len() ==> (#[trigger] done[i]) < n
}

pub proof fn lemma_room(n: nat, done: Seq<usize>, i: usize)
    requires
        valid_listing(n, done),
        i < n,
        !done.contains(i),
    ensures
        done.len() < n,
        valid_listing(n, done.push(i)),
{
    let more = done.push(i);
    assert(more.no_duplicates()) by {
        assert forall|a: int, b: int|
            0 <= a < more.len() && 0 <= b < more.len() && a != b implies more[a] != more[b] by {
            if a < done.len() && b < done.len() {
                assert(done[a] != done[b]);
            } else if a < done.len() {
                assert(done.contains(done[a]));
            } else {
                assert(done.contains(done[b]));
            }
        }
    }
    assert forall|k: int| 0 <= k < more.len() implies (#[trigger] more[k]) < n by {
        if k < done.len() {
            assert(more[k] == done[k]);
        }
    }
    lemma_listing_fits(n, more);
}

pub proof fn lemma_listing_fits(n: nat, done: Seq<usize>)
    requires
        valid_listing(n, done),
    ensures
        done.len() <= n,
{
    let places = done.map_values(|u: usize| u as int);
    assert(places.no_duplicates());
    places.unique_seq_to_set();
    let all = vstd::set_lib::set_int_range(0, n as int);
    vstd::set_lib::lemma_int_range(0, n as int);
    assert(places.to_set().subset_of(all)) by {
        assert forall|x: int| places.to_set().contains(x) implies all.contains(x) by {
            let k = choose|k: int| 0 <= k < places.len() && places[k] == x;
            assert(done[k] < n);
        }
    }
    vstd::set_lib::lemma_len_subset(places.to_set(), all);
}

pub proof fn lemma_children(entries: Seq<StoredFileEntry>, order: Seq<usize>, path: Seq<char>)
    requires
        forall|p: int| 0 <= p < order.len() ==> (#[trigger] order[p]) < entries.len(),
    ensures
        forall|p: int|
            0 <= p < children_at(entries, order, path).len() ==> {
                let c = #[trigger] children_at(entries, order, path)[p];
                c < entries.len() && is_child(entries[c as int], path) && order.contains(c)
            },
    decreases order.len(),
{
    if order.len() > 0 {
        let rest = order.drop_last();
        assert forall|p: int| 0 <= p < rest.len() implies (#[trigger] rest[p]) < entries.len() by {
            assert(rest[p] == order[p]);
        }
        lemma_children(entries, rest, path);
        let all = children_at(entries, order, path);
        let before = children_at(entries, rest, path);
        assert forall|p: int| 0 <= p < all.len() implies {
            let c = #[trigger] all[p];
            c < entries.len() && is_child(entries[c as int], path) && order.contains(c)
        } by {
            if p < before.len() {
                assert(all[p] == before[p]);
                assert(rest.contains(before[p]));
                let q = choose|q: int| 0 <= q < rest.len() && rest[q] == before[p];
                assert(order[q] == all[p]);
            } else {
                assert(order[order.len() - 1] == all[p]);
            }
        }
    }
}

/// The children of each directory, found by its path.
struct Families {
    index: StringHashMap<usize>,
    groups: Vec<Vec<usize>>,
}

impl Families {
    spec fn holds(&self, entries: Seq<StoredFileEntry>, order: Seq<usize>) -> bool {
        &&& forall|p: Seq<char>| #[trigger]
            self.index@.contains_key(p) ==> self.index@[p] < self.groups@.len()
                && self.groups@[self.index@[p] as int]@ == children_at(entries, order, p)
        &&& forall|p: Seq<char>|
            !(#[trigger] self.index@.contains_key(p)) ==> children_at(entries, order, p)
                == Seq::<usize>::empty()
        &&& forall|p: Seq<char>, q: Seq<char>| #[trigger]
            self.index@.contains_key(p) && #[trigger] self.index@.contains_key(q) && p != q
                ==> self.index@[p] != self.index@[q]
    }
}

fn families(entries: &Vec<&StoredFileEntry>, order: &Vec<usize>) -> (f: Families)
    requires
        forall|p: int| 0 <= p < order@.len() ==> (#[trigger] order@[p]) < entries@.len(),
    ensures
        f.holds(entries_of(entries@), order@),
{
    let ghost all = entries_of(entries@);
    let mut f = Families { index: StringHashMap::new(), groups: Vec::new() };
    let mut n: usize = 0;
    assert(order@.take(0) =~= Seq::empty());
    while n < order.len()
        invariant
            n <= order@.len(),
            all == entries_of(entries@),
            forall|p: int| 0 <= p < order@.len() ==> (#[trigger] order@[p]) < entries@.len(),
            f.holds(all, order@.take(n as int)),
        decreases order@.len() - n,
    {
        let ghost seen = order@.take(n as int);
        let ghost more = order@.take(n + 1);
        assert(more.drop_last() =~= seen);
        let c: usize = order[n];
        assert(more.last() == c);
        match &entries[c].parent_path {
            Some(parent) => {
                let known: Option<usize> = match f.index.get(parent.as_str()) {
                    Some(id) => Some(*id),
                    None => None,
                };
                match known {
                    Some(id) => {
                        let ghost before = f;
                        let group: &mut Vec<usize> = &mut f.groups[id];
                        group.push(c);
                        proof {
                            assert(f.index@ == before.index@);
                            assert(f.groups@ =~= before.groups@.update(
                                id as int,
                                f.groups@[id as int],
                            ));
                            assert forall|p: Seq<char>| #[trigger]
                                f.index@.contains_key(p) implies f.index@[p] < f.groups@.len()
                                && f.groups@[f.index@[p] as int]@ == children_at(all, more, p) by {
                                if p == parent@ {
                                    assert(f.groups@[id as int]@ =~= before.groups@[id as int]@.push(
                                        c,
                                    ));
                                } else {
                                    assert(before.index@.contains_key(parent@));
                                    assert(f.index@[p] != id);
                                }
                            }
                        }
                    },
                    None => {
                        let ghost before = f;
                        let id: usize = f.groups.len();
                        let mut group: Vec<usize> = Vec::new();
                        group.push(c);
                        f.groups.push(group);
                        f.index.insert(parent.clone(), id);
                        proof {
                            assert(children_at(all, seen, parent@) =~= Seq::<usize>::empty());
                            assert(group@ =~= Seq::<usize>::empty().push(c));
                            assert forall|p: Seq<char>| #[trigger]
                                f.index@.contains_key(p) implies f.index@[p] < f.groups@.len()
                                && f.groups@[f.index@[p] as int]@ == children_at(all, more, p) by {
                                if p != parent@ {
                                    assert(before.index@.contains_key(p));
                                }
                            }
                            assert forall|p: Seq<char>|
                                !(#[trigger] f.index@.contains_key(p)) implies children_at(
                                all,
                                more,
                                p,
                            ) == Seq::<usize>::empty() by {
                                assert(!before.index@.contains_key(p));
                            }
                            assert forall|p: Seq<char>, q: Seq<char>| #[trigger]
                                f.index@.contains_key(p) && #[trigger] f.index@.contains_key(q) && p
                                    != q implies f.index@[p] != f.index@[q] by {
                                if p != parent@ {
                                    assert(before.index@.contains_key(p));
                                }
                                if q != parent@ {
                                    assert(before.index@.contains_key(q));
                                }
                            }
                        }
                    },
                }
            },
            None => {},
        }
        n = n + 1;
    }
    assert(order@.take(n as int) =~= order@);
    f
}

/// `more` starts with `done`.
pub open spec fn extends(done: Seq<usize>, more: Seq<usize>) -> bool {
    done.len() <= more.len() && more.take(done.len() as int) == done
}

pub proof fn lemma_extends_trans(a: Seq<usize>, b: Seq<usize>, c: Seq<usize>)
    requires
        extends(a, b),
        extends(b, c),
    ensures
        extends(a, c),
{
    assert(c.take(a.len() as int) =~= b.take(a.len() as int)) by {
        assert forall|k: int| 0 <= k < a.len() implies c[k] == b[k] by {
            assert(c.take(b.len() as int)[k] == b[k]);
        }
    }
}

pub proof fn lemma_extends_contains(a: Seq<usize>, b: Seq<usize>, x: usize)
    requires
        extends(a, b),
        a.contains(x),
    ensures
        b.contains(x),
{
    let k = choose|k: int| 0 <= k < a.len() && a[k] == x;
    assert(b.take(a.len() as int)[k] == x);
    assert(b[k] == x);
}

/// `order` holds places of entries.
pub open spec fn in_range(n: nat, order: Seq<usize>) -> bool {
    forall|p: int| 0 <= p < order.len() ==> (#[trigger] order[p]) < n
}

pub proof fn lemma_visit(
    entries: Seq<StoredFileEntry>,
    order: Seq<usize>,
    i: usize,
    done: Seq<usize>,
)
    requires
        in_range(entries.len(), order),
        valid_listing(entries.len(), done),
        i < entries.len(),
    ensures
        valid_listing(entries.len(), visit(entries, order, i, done)),
        extends(done, visit(entries, order, i, done)),
        visit(entries, order, i, done).contains(i),
    decreases entries.len() - done.len(), 0nat,
{
    if done.contains(i) {
        assert(done.take(done.len() as int) =~= done);
    } else {
        lemma_room(entries.len(), done, i);
        let path = entries[i as int].path@;
        let children = children_at(entries, order, path);
        lemma_children(entries, order, path);
        lemma_visit_all(entries, order, children, 0, done.push(i));
        let end = visit(entries, order, i, done);
        assert(extends(done, done.push(i))) by {
            assert(done.push(i).take(done.len() as int) =~= done);
        }
        lemma_extends_trans(done, done.push(i), end);
        assert(done.push(i)[done.len() as int] == i);
        lemma_extends_contains(done.push(i), end, i);
    }
}

pub proof fn lemma_visit_all(
    entries: Seq<StoredFileEntry>,
    order: Seq<usize>,
    children: Seq<usize>,
    k: nat,
    done: Seq<usize>,
)
    requires
        in_range(entries.len(), order),
        in_range(entries.len(), children),
        valid_listing(entries.len(), done),
    ensures
        valid_listing(entries.len(), visit_all(entries, order, children, k, done)),
        extends(done, visit_all(entries, order, children, k, done)),
        forall|p: int|
            k <= p < children.len() ==> visit_all(
                entries,
                order,
                children,
                k,
                done,
            ).contains(#[trigger] children[p]),
        k < children.len() ==> visit_all(entries, order, children, k, done) == visit_all(
            entries,
            order,
            children,
            k + 1,
            visit(entries, order, children[k as int], done),
        ),
    decreases entries.len() - done.len(), 1 + children.len() - k,
{
    lemma_listing_fits(entries.len(), done);
    if k >= children.len() {
        assert(done.take(done.len() as int) =~= done);
    } else {
        let c = children[k as int];
        let next = visit(entries, order, c, done);
        lemma_visit(entries, order, c, done);
        lemma_listing_fits(entries.len(), next);
        lemma_visit_all(entries, order, children, k + 1, next);
        let end = visit_all(entries, order, children, k, done);
        lemma_extends_trans(done, next, end);
        lemma_extends_contains(next, end, c);
    }
}

pub proof fn lemma_visit_roots(entries: Seq<StoredFileEntry>, order: Seq<usize>, n: nat)
    requires
        in_range(entries.len(), order),
        n <= order.len(),
    ensures
        valid_listing(entries.len(), visit_roots(entries, order, n)),
    decreases n,
{
    if n > 0 {
        lemma_visit_roots(entries, order, (n - 1) as nat);
        if is_root(entries, order[n - 1] as int) {
            lemma_visit(
                entries,
                order,
                order[n - 1],
                visit_roots(entries, order, (n - 1) as nat),
            );
        }
    }
}

/// Lists the `i`th entry and all below it, unless they are listed.
fn sort_subtree(
    i: usize,
    entries: &Vec<&StoredFileEntry>,
    order: &Vec<usize>,
    f: &Families,
    sorted: &mut Vec<usize>,
    processed: &mut Vec<bool>,
)
    requires
        i < entries@.len(),
        in_range(entries@.len(), order@),
        f.holds(entries_of(entries@), order@),
        valid_listing(entries@.len(), old(sorted)@),
        old(processed)@.len() == entries@.len(),
        forall|j: int|
            0 <= j < entries@.len() ==> #[trigger] old(processed)@[j] == old(sorted)@.contains(
                j as usize,
            ),
    ensures
        final(sorted)@ == visit(entries_of(entries@), order@, i, old(sorted)@),
        valid_listing(entries@.len(), final(sorted)@),
        final(processed)@.len() == entries@.len(),
        forall|j: int|
            0 <= j < entries@.len() ==> #[trigger] final(processed)@[j] == final(sorted)@.contains(
                j as usize,
            ),
    decreases entries@.len() - old(sorted)@.len(), 0nat,
{
    let ghost all = entries_of(entries@);
    proof {
        lemma_visit(all, order@, i, sorted@);
        lemma_listing_fits(all.len(), sorted@);
    }
    if processed[i] {
        return;
    }
    proof {
        lemma_room(all.len(), sorted@, i);
    }
    let ghost done = sorted@;
    sorted.push(i);
    processed.set(i, true);
    proof {
        assert forall|j: int| 0 <= j < all.len() implies #[trigger] processed@[j]
            == sorted@.contains(j as usize) by {
            if j == i {
                assert(sorted@[done.len() as int] == i);
            } else {
                if done.contains(j as usize) {
                    let k = choose|k: int| 0 <= k < done.len() && done[k] == j as usize;
                    assert(sorted@[k] == j as usize);
                }
                if sorted@.contains(j as usize) {
                    let k = choose|k: int| 0 <= k < sorted@.len() && sorted@[k] == j as usize;
                    assert(done[k] == j as usize);
                }
            }
        }
    }
    let ghost path = entries@[i as int].path@;
    let ghost children = children_at(all, order@, path);
    proof {
        lemma_children(all, order@, path);
    }
    match f.index.get(entries[i].path.as_str()) {
        Some(id) => {
            assert(f.index@.contains_key(path));
            let group: &Vec<usize> = &f.groups[*id];
            let mut k: usize = 0;
            while k < group.len()
                invariant
                    k <= group@.len(),
                    group@ == children,
                    all == entries_of(entries@),
                    in_range(all.len(), order@),
                    in_range(all.len(), children),
                    f.holds(all, order@),
                    valid_listing(all.len(), sorted@),
                    old(sorted)@.len() < sorted@.len(),
                    processed@.len() == all.len(),
                    forall|j: int|
                        0 <= j < all.len() ==> #[trigger] processed@[j] == sorted@.contains(
                            j as usize,
                        ),
                    visit(all, order@, i, old(sorted)@) == visit_all(
                        all,
                        order@,
                        children,
                        k as nat,
                        sorted@,
                    ),
                decreases group@.len() - k,
            {
                let ghost before = sorted@;
                let c: usize = group[k];
                proof {
                    lemma_visit_all(all, order@, children, k as nat, sorted@);
                    lemma_visit(all, order@, c, sorted@);
                    lemma_listing_fits(all.len(), sorted@);
                }
                sort_subtree(c, entries, order, f, sorted, processed);
                k = k + 1;
            }
        },
        None => {
            assert(!f.index@.contains_key(path));
            assert(children.len() == 0);
        },
    }
}

/// The order in which entries are listed when the largest of each directory come first.
fn hierarchical_order(entries: &Vec<&StoredFileEntry>, order: &Vec<usize>) -> (sorted: Vec<usize>)
    requires
        in_range(entries@.len(), order@),
    ensures
        sorted@ == visit_roots(entries_of(entries@), order@, order@.len()),
        valid_listing(entries@.len(), sorted@),
{
    let ghost all = entries_of(entries@);
    let f = families(entries, order);
    let mut paths = StringHashSet::new();
    let mut processed: Vec<bool> = Vec::new();
    let mut n: usize = 0;
    while n < entries.len()
        invariant
            n <= entries@.len(),
            processed@.len() == n,
            all == entries_of(entries@),
            forall|j: int| 0 <= j < n ==> !(#[trigger] processed@[j]),
            forall|s: Seq<char>| #[trigger]
                paths@.contains(s) <==> exists|j: int| 0 <= j < n && (#[trigger] all[j]).path@ == s,
        decreases entries@.len() - n,
    {
        let ghost before = paths@;
        let _new = paths.insert(entries[n].path.clone());
        processed.push(false);
        assert forall|s: Seq<char>| #[trigger] paths@.contains(s) <==> exists|j: int|
            0 <= j < n + 1 && (#[trigger] all[j]).path@ == s by {
            if before.contains(s) {
                let j = choose|j: int| 0 <= j < n && (#[trigger] all[j]).path@ == s;
                assert(all[j].path@ == s);
            }
            if s == all[n as int].path@ {
                assert(paths@.contains(s));
            }
        }
        n = n + 1;
    }
    let mut sorted: Vec<usize> = Vec::new();
    let mut k: usize = 0;
    while k < order.len()
        invariant
            k <= order@.len(),
            all == entries_of(entries@),
            in_range(all.len(), order@),
            f.holds(all, order@),
            sorted@ == visit_roots(all, order@, k as nat),
            valid_listing(all.len(), sorted@),
            processed@.len() == all.len(),
            forall|j: int|
                0 <= j < all.len() ==> #[trigger] processed@[j] == sorted@.contains(j as usize),
            forall|s: Seq<char>| #[trigger]
                paths@.contains(s) <==> exists|j: int|
                    0 <= j < all.len() && (#[trigger] all[j]).path@ == s,
        decreases order@.len() - k,
    {
        let i: usize = order[k];
        let root = match &entries[i].parent_path {
            None => true,
            Some(parent) => {
                let known = paths.contains(parent.as_str());
                assert(known <==> exists|j: int|
                    0 <= j < all.len() && (#[trigger] all[j]).path@ == parent@);
                entries[i].depth == 0 || !known
            },
        };
        assert(root == is_root(all, i as int));
        if root {
            sort_subtree(i, entries, order, &f, &mut sorted, &mut processed);
        }
        k = k + 1;
    }
    sorted
}

/// `result` is `entries` as they are listed under `mode`.
pub open spec fn is_sorted_listing(
    entries: Seq<StoredFileEntry>,
    mode: SortMode,
    result: Seq<StoredFileEntry>,
) -> bool {
    match mode {
        SortMode::ByPath => exists|order: Seq<usize>| #[trigger]
            is_path_order(entries, order) && result == reordered(entries, order),
        SortMode::BySize => exists|order: Seq<usize>| #[trigger]
            is_size_order(entries, order) && result == overlaid(
                entries,
                visit_roots(entries, order, order.len()),
            ),
    }
}

/// Sorts entries so that the tree keeps its shape: by path, or by size within each directory.
pub fn sort_entries<'a>(entries: Vec<&'a StoredFileEntry>, mode: SortMode) -> (sorted: Vec<
    &'a StoredFileEntry,
>)
    ensures
        is_sorted_listing(entries_of(entries@), mode, entries_of(sorted@)),
{
    let ghost all = entries_of(entries@);
    match mode {
        SortMode::ByPath => {
            let order = path_order(&entries);
            pick(&entries, &order)
        },
        SortMode::BySize => {
            let order = size_order(&entries);
            let listed = hierarchical_order(&entries, &order);
            proof {
                lemma_listing_fits(all.len(), listed@);
            }
            let mut whole: Vec<usize> = Vec::new();
            let mut i: usize = 0;
            while i < entries.len()
                invariant
                    i <= entries@.len(),
                    whole@.len() == i,
                    valid_listing(entries@.len(), listed@),
                    forall|j: int|
                        0 <= j < i ==> #[trigger] whole@[j] == if j < listed@.len() {
                            listed@[j]
                        } else {
                            j as usize
                        },
                decreases entries@.len() - i,
            {
                if i < listed.len() {
                    whole.push(listed[i]);
                } else {
                    whole.push(i);
                }
                i = i + 1;
            }
            assert forall|j: int| 0 <= j < whole@.len() implies (#[trigger] whole@[j])
                < entries@.len() by {
                if j < listed@.len() {
                    assert(listed@[j] < entries@.len());
                }
            }
            let sorted = pick(&entries, &whole);
            assert(entries_of(sorted@) =~= overlaid(all, listed@));
            sorted
        },
    }
}

/// The entries that are left to be sorted: not folded away and, where something is searched for,
/// shown by the search.
pub open spec fn visible(
    entries: Seq<StoredFileEntry>,
    folded: Set<Seq<char>>,
    query: Option<Seq<char>>,
) -> Seq<StoredFileEntry> {
    let rest = unfolded(entries, folded);
    match query {
        Some(q) => if q.len() == 0 {
            rest
        } else {
            searched(rest, lowered_of(rest), lowercase(q))
        },
        None => rest,
    }
}

/// The entries to show, in their order: what lies under folded directories is left out, a search
/// leaves what it finds and the directories above, and the rest is sorted.
pub fn compute_visible_entries<'a>(
    all_entries: &'a [StoredFileEntry],
    folded_dirs: &PathSet,
    sort_mode: SortMode,
    search_query: Option<&str>,
) -> (shown: Vec<&'a StoredFileEntry>)
    ensures
        is_sorted_listing(
            visible(
                all_entries@,
                folded_dirs@,
                match search_query {
                    Some(q) => Some(q@),
                    None => None,
                },
            ),
            sort_mode,
            entries_of(shown@),
        ),
{
    let rest = unfolded_entries(all_entries, folded_dirs);
    let left = match search_query {
        Some(query) => if query.is_empty() {
            rest
        } else {
            let lowered = lower_entries(&rest);
            assert(lowered@.len() == rest@.len()) by {
                assert(lowered_texts(lowered@).len() == lowered_of(entries_of(rest@)).len());
            }
            let query_lower = to_lower(query);
            apply_search_filter(&rest, &lowered, query_lower.as_str())
        },
        None => rest,
    };
    sort_entries(left, sort_mode)
}

} // verus!
