//! What the listing of a scan's files shows, and in which order.
//!
//! Everything is said of the listing itself and of what the entries hold: their paths, names,
//! parents and sizes. How a listing is made plays no part.
use vstd::prelude::*;

use crate::db::StoredFileEntry;
use crate::paths::{inside, lies_below};
use crate::sort::covers;
use crate::text::{has_part, part_at, text_le};
use crate::ui::tree::{
    children_at, chosen, found, hidden, in_range, is_child, is_path_order, is_root, is_size_order,
    is_sorted_listing, lemma_children, lemma_visit, lemma_visit_all, lemma_visit_roots, lowercase,
    lowered_of, overlaid, path_before, reordered, search_shows, size_before, unfolded, valid_listing,
    visible, visit_roots,
};
use crate::ui::tree_laws::{
    chain, descends, forest, law_contents_follow_directory, law_every_entry_listed,
    law_roots_by_size, law_siblings_by_size, parent_link,
};
use crate::ui::types::SortMode;

verus! {

/// Whether `path` lies somewhere below the directory `dir`: it goes on after the directory's path
/// and a slash, or the directory is the root of the file system and the path starts there.
pub open spec fn below(path: Seq<char>, dir: Seq<char>) -> bool {
    ||| (path.len() > dir.len() && path.take(dir.len() as int) == dir && path[dir.len() as int]
        == '/')
    ||| (dir == seq!['/'] && path.len() > 1 && path[0] == '/')
}

/// Whether `part` stands somewhere in `text`.
pub open spec fn holds_part(text: Seq<char>, part: Seq<char>) -> bool {
    exists|i: int| 0 <= i <= text.len() && part.is_prefix_of(#[trigger] text.skip(i))
}

/// Whether a folded directory lies above the entry.
pub open spec fn folded_away(e: StoredFileEntry, folded: Set<Seq<char>>) -> bool {
    exists|dir: Seq<char>| #[trigger] folded.contains(dir) && below(e.path@, dir)
}

/// Whether the entry's name or path holds the query, however either is written.
pub open spec fn matches_query(e: StoredFileEntry, query: Seq<char>) -> bool {
    ||| holds_part(lowercase(e.name@), lowercase(query))
    ||| holds_part(lowercase(e.path@), lowercase(query))
}

/// Whether `dir` is the directory that the entry says it lies in.
pub open spec fn parent_is(e: StoredFileEntry, dir: StoredFileEntry) -> bool {
    e.parent_path is Some && e.parent_path->0@ == dir.path@
}

/// Whether the directory that the entry lies in is listed too.
pub open spec fn has_listed_parent(e: StoredFileEntry, l: Seq<StoredFileEntry>) -> bool {
    exists|m: int| 0 <= m < l.len() && parent_is(e, #[trigger] l[m])
}

/// The entries of a scan: no path occurs twice, and what lies in a directory has a longer path than
/// it and lies deeper than the root.
pub open spec fn scan_entries(entries: Seq<StoredFileEntry>) -> bool {
    &&& entries.len() <= usize::MAX
    &&& forall|i: int, j: int|
        0 <= i < entries.len() && 0 <= j < entries.len() && i != j ==> (
        #[trigger] entries[i]).path@ != (#[trigger] entries[j]).path@
    &&& forall|i: int, j: int|
        0 <= i < entries.len() && 0 <= j < entries.len() && parent_is(
            #[trigger] entries[i],
            #[trigger] entries[j],
        ) ==> entries[j].path@.len() < entries[i].path@.len() && entries[i].depth != 0
}

/// `l` is what is shown of `entries`.
pub open spec fn is_shown(
    entries: Seq<StoredFileEntry>,
    folded: Set<Seq<char>>,
    query: Option<Seq<char>>,
    mode: SortMode,
    l: Seq<StoredFileEntry>,
) -> bool {
    is_sorted_listing(visible(entries, folded, query), mode, l)
}

/// The same, as it is said where listings are made.
pub proof fn lemma_below(path: Seq<char>, dir: Seq<char>)
    ensures
        lies_below(path, dir) <==> below(path, dir),
{
    reveal_strlit("/");
    let root = seq!['/'];
    assert("/"@ =~= root);
    let n = dir.len() as int;
    if dir == root {
        assert(root.is_prefix_of(path) <==> path.len() >= 1 && path[0] == '/') by {
            if path.len() >= 1 && path[0] == '/' {
                assert(path.take(1) =~= root);
            }
            if root.is_prefix_of(path) {
                assert(path[0] == root[0]);
            }
        }
        if path.len() == 1 && path[0] == '/' {
            assert(path =~= root);
        }
        if path.len() > n && path.take(n) == dir {
            assert(path.take(n)[0] == path[0]);
        }
    } else {
        let start = dir.push('/');
        assert(inside(dir) == start);
        if start.is_prefix_of(path) {
            assert(start[n] == path[n]);
            assert(path.take(n) =~= dir) by {
                assert forall|k: int| 0 <= k < n implies path[k] == dir[k] by {
                    assert(start[k] == path[k]);
                }
            }
        }
        if path.len() > n && path.take(n) == dir && path[n] == '/' {
            assert(path.take(n + 1) =~= start);
        }
    }
}

proof fn lemma_hidden(e: StoredFileEntry, folded: Set<Seq<char>>)
    ensures
        hidden(e.path@, folded) <==> folded_away(e, folded),
{
    if hidden(e.path@, folded) {
        let dir = choose|dir: Seq<char>| #[trigger] folded.contains(dir) && lies_below(e.path@, dir);
        lemma_below(e.path@, dir);
        assert(folded.contains(dir) && below(e.path@, dir));
    }
    if folded_away(e, folded) {
        let dir = choose|dir: Seq<char>| #[trigger] folded.contains(dir) && below(e.path@, dir);
        lemma_below(e.path@, dir);
        assert(folded.contains(dir) && lies_below(e.path@, dir));
    }
}

proof fn lemma_has_part(text: Seq<char>, part: Seq<char>)
    ensures
        has_part(text, part) <==> holds_part(text, part),
{
    if has_part(text, part) {
        let i = choose|i: int| #[trigger] part_at(text, part, i);
        assert(text.skip(i).subrange(0, part.len() as int) =~= text.subrange(i, i + part.len()));
        assert(part.is_prefix_of(text.skip(i)));
    }
    if holds_part(text, part) {
        let i = choose|i: int| 0 <= i <= text.len() && part.is_prefix_of(#[trigger] text.skip(i));
        assert(text.subrange(i, i + part.len()) =~= text.skip(i).subrange(0, part.len() as int));
        assert(part_at(text, part, i));
    }
}

proof fn lemma_chosen(holds: spec_fn(int) -> bool, n: nat)
    ensures
        forall|i: int| #[trigger]
            chosen(holds, n).contains(i) <==> 0 <= i < n && holds(i),
        forall|p: int, q: int|
            0 <= p < q < chosen(holds, n).len() ==> (#[trigger] chosen(holds, n)[p])
                < #[trigger] chosen(holds, n)[q],
    decreases n,
{
    let all = chosen(holds, n);
    if n > 0 {
        let before = chosen(holds, (n - 1) as nat);
        lemma_chosen(holds, (n - 1) as nat);
        assert forall|i: int| #[trigger] all.contains(i) <==> 0 <= i < n && holds(i) by {
            if all.contains(i) {
                let k = choose|k: int| 0 <= k < all.len() && all[k] == i;
                if k < before.len() {
                    assert(before[k] == i);
                    assert(before.contains(i));
                }
            }
            if 0 <= i < n && holds(i) {
                if i < n - 1 {
                    assert(before.contains(i));
                    let k = choose|k: int| 0 <= k < before.len() && before[k] == i;
                    assert(all[k] == i);
                } else {
                    assert(all[before.len() as int] == i);
                }
            }
        }
        assert forall|p: int, q: int| 0 <= p < q < all.len() implies (#[trigger] all[p])
            < #[trigger] all[q] by {
            if q < before.len() {
                assert(before[p] < before[q]);
            } else {
                assert(before.contains(before[p]));
            }
        }
    }
}

/// Whether the `i`th entry is to be shown.
pub open spec fn to_show(
    entries: Seq<StoredFileEntry>,
    folded: Set<Seq<char>>,
    query: Option<Seq<char>>,
    i: int,
) -> bool {
    &&& !folded_away(entries[i], folded)
    &&& query is Some && query->0.len() > 0 ==> exists|m: int|
        0 <= m < entries.len() && !folded_away(#[trigger] entries[m], folded) && matches_query(
            entries[m],
            query->0,
        ) && (entries[m].path@ == entries[i].path@ || below(entries[m].path@, entries[i].path@))
}

/// Where the entries that are left to be sorted stand among all.
proof fn lemma_visible(
    entries: Seq<StoredFileEntry>,
    folded: Set<Seq<char>>,
    query: Option<Seq<char>>,
) -> (places: Seq<int>)
    ensures
        places.len() == visible(entries, folded, query).len(),
        forall|k: int|
            0 <= k < places.len() ==> 0 <= #[trigger] places[k] < entries.len() && visible(
                entries,
                folded,
                query,
            )[k] == entries[places[k]],
        forall|p: int, q: int|
            0 <= p < q < places.len() ==> (#[trigger] places[p]) < #[trigger] places[q],
        forall|i: int|
            0 <= i < entries.len() ==> (#[trigger] places.contains(i) <==> to_show(
                entries,
                folded,
                query,
                i,
            )),
{
    let open = |i: int| !hidden(entries[i].path@, folded);
    let first = chosen(open, entries.len());
    let rest = unfolded(entries, folded);
    lemma_chosen(open, entries.len());
    assert forall|k: int| 0 <= k < first.len() implies 0 <= #[trigger] first[k] < entries.len()
        && rest[k] == entries[first[k]] && !folded_away(entries[first[k]], folded) by {
        assert(first.contains(first[k]));
        lemma_hidden(entries[first[k]], folded);
    }
    assert forall|i: int| 0 <= i < entries.len() implies (#[trigger] first.contains(i)
        <==> !folded_away(entries[i], folded)) by {
        lemma_hidden(entries[i], folded);
    }
    if query is Some && query->0.len() > 0 {
        let low = lowered_of(rest);
        let q = lowercase(query->0);
        let shows = |i: int| search_shows(rest, low, q, i);
        let second = chosen(shows, rest.len());
        lemma_chosen(shows, rest.len());
        let places = Seq::new(second.len(), |k: int| first[second[k]]);
        assert forall|k: int| 0 <= k < second.len() implies 0 <= #[trigger] second[k]
            < rest.len() by {
            assert(second.contains(second[k]));
        }
        assert forall|k: int| 0 <= k < places.len() implies 0 <= #[trigger] places[k]
            < entries.len() && visible(entries, folded, query)[k] == entries[places[k]] by {
            let s = second[k];
            assert(0 <= first[s] < entries.len());
        }
        assert forall|a: int, b: int| 0 <= a < b < places.len() implies (#[trigger] places[a])
            < #[trigger] places[b] by {
            assert(second[a] < second[b]);
            assert(first[second[a]] < first[second[b]]);
        }
        assert forall|m: int| 0 <= m < rest.len() implies (#[trigger] found(low[m], q)
            <==> matches_query(rest[m], query->0)) by {
            lemma_has_part(lowercase(rest[m].name@), q);
            lemma_has_part(lowercase(rest[m].path@), q);
        }
        assert forall|i: int| 0 <= i < entries.len() implies (#[trigger] places.contains(i)
            <==> to_show(entries, folded, query, i)) by {
            if places.contains(i) {
                let k = choose|k: int| 0 <= k < places.len() && places[k] == i;
                let s = second[k];
                assert(second.contains(s));
                assert(first[s] == i);
                let m = choose|m: int|
                    0 <= m < rest.len() && found(#[trigger] low[m], q) && (rest[m].path@
                        == rest[s].path@ || lies_below(rest[m].path@, rest[s].path@));
                lemma_below(rest[m].path@, rest[s].path@);
                let o = first[m];
                assert(entries[o] == rest[m]);
                assert(!folded_away(entries[o], folded));
            }
            if to_show(entries, folded, query, i) {
                assert(first.contains(i));
                let s = choose|s: int| 0 <= s < first.len() && first[s] == i;
                let o = choose|o: int|
                    0 <= o < entries.len() && !folded_away(#[trigger] entries[o], folded)
                        && matches_query(entries[o], query->0) && (entries[o].path@
                        == entries[i].path@ || below(entries[o].path@, entries[i].path@));
                assert(first.contains(o));
                let m = choose|m: int| 0 <= m < first.len() && first[m] == o;
                lemma_below(rest[m].path@, rest[s].path@);
                assert(found(low[m], q));
                assert(search_shows(rest, low, q, s));
                assert(shows(s));
                assert(second.contains(s));
                let k = choose|k: int| 0 <= k < second.len() && second[k] == s;
                assert(places[k] == i);
            }
        }
        places
    } else {
        first
    }
}

/// Where the lines of a listing stand among the entries that were sorted.
proof fn lemma_sorted(v: Seq<StoredFileEntry>, mode: SortMode, l: Seq<StoredFileEntry>) -> (order:
    Seq<usize>)
    requires
        is_sorted_listing(v, mode, l),
        forest(v) || mode == SortMode::ByPath,
        v.len() <= usize::MAX,
    ensures
        l.len() == v.len(),
        covers(order, 0, v.len() as int),
        order.no_duplicates(),
        forall|k: int| 0 <= k < l.len() ==> #[trigger] l[k] == v[order[k] as int],
{
    match mode {
        SortMode::ByPath => {
            let order = choose|order: Seq<usize>| #[trigger]
                is_path_order(v, order) && l == reordered(v, order);
            assert forall|x: int, y: int|
                0 <= x < order.len() && 0 <= y < order.len() && x != y implies order[x]
                != order[y] by {
                if x < y {
                    assert(path_before(v, order[x] as int, order[y] as int));
                } else {
                    assert(path_before(v, order[y] as int, order[x] as int));
                }
            }
            order
        },
        SortMode::BySize => {
            let by_size = choose|order: Seq<usize>| #[trigger]
                is_size_order(v, order) && l == overlaid(v, visit_roots(v, order, order.len()));
            let order = visit_roots(v, by_size, by_size.len());
            lemma_visit_roots(v, by_size, by_size.len());
            law_every_entry_listed(v, by_size);
            order
        },
    }
}

proof fn lemma_forest(
    entries: Seq<StoredFileEntry>,
    folded: Set<Seq<char>>,
    query: Option<Seq<char>>,
)
    requires
        scan_entries(entries),
    ensures
        forest(visible(entries, folded, query)),
        visible(entries, folded, query).len() <= entries.len(),
{
    let v = visible(entries, folded, query);
    let places = lemma_visible(entries, folded, query);
    assert(places.len() <= entries.len()) by {
        assert(places.no_duplicates());
        places.unique_seq_to_set();
        let whole = vstd::set_lib::set_int_range(0, entries.len() as int);
        vstd::set_lib::lemma_int_range(0, entries.len() as int);
        assert(places.to_set().subset_of(whole)) by {
            assert forall|x: int| places.to_set().contains(x) implies whole.contains(x) by {
                let k = choose|k: int| 0 <= k < places.len() && places[k] == x;
                assert(0 <= places[k] < entries.len());
            }
        }
        vstd::set_lib::lemma_len_subset(places.to_set(), whole);
    }
    assert forall|i: int, j: int| 0 <= i < v.len() && 0 <= j < v.len() && i != j implies (
    #[trigger] v[i]).path@ != (#[trigger] v[j]).path@ by {
        assert(v[i] == entries[places[i]] && v[j] == entries[places[j]]);
        if i < j {
            assert(places[i] < places[j]);
        } else {
            assert(places[j] < places[i]);
        }
    }
    assert forall|i: int, j: int|
        0 <= i < v.len() && 0 <= j < v.len() && #[trigger] is_child(v[i], v[j].path@) implies v[
    j].path@.len() < v[i].path@.len() && !is_root(v, i) by {
        assert(v[i] == entries[places[i]] && v[j] == entries[places[j]]);
        assert(parent_is(entries[places[i]], entries[places[j]]));
    }
}

proof fn lemma_members(
    entries: Seq<StoredFileEntry>,
    folded: Set<Seq<char>>,
    query: Option<Seq<char>>,
    mode: SortMode,
    l: Seq<StoredFileEntry>,
    i: int,
)
    requires
        scan_entries(entries),
        is_shown(entries, folded, query, mode, l),
        0 <= i < entries.len(),
    ensures
        l.contains(entries[i]) <==> to_show(entries, folded, query, i),
{
    let v = visible(entries, folded, query);
    let places = lemma_visible(entries, folded, query);
    lemma_forest(entries, folded, query);
    let order = lemma_sorted(v, mode, l);
    if l.contains(entries[i]) {
        let k = choose|k: int| 0 <= k < l.len() && l[k] == entries[i];
        let o = order[k] as int;
        assert(v[o] == entries[places[o]]);
        assert(entries[places[o]].path@ == entries[i].path@);
        assert(places[o] == i);
        assert(places.contains(i));
    }
    if to_show(entries, folded, query, i) {
        assert(places.contains(i));
        let o = choose|o: int| 0 <= o < places.len() && places[o] == i;
        assert(order.contains(o as usize));
        let k = choose|k: int| 0 <= k < order.len() && order[k] == o as usize;
        assert(l[k] == entries[i]);
    }
}

/// Nothing that lies under a folded directory is shown, under either way to sort and whatever is
/// searched for.
pub proof fn law_folded_is_hidden(
    entries: Seq<StoredFileEntry>,
    folded: Set<Seq<char>>,
    query: Option<Seq<char>>,
    mode: SortMode,
    l: Seq<StoredFileEntry>,
    i: int,
    dir: Seq<char>,
)
    requires
        scan_entries(entries),
        is_shown(entries, folded, query, mode, l),
        0 <= i < entries.len(),
        folded.contains(dir),
        below(entries[i].path@, dir),
    ensures
        !l.contains(entries[i]),
{
    lemma_members(entries, folded, query, mode, l, i);
    assert(folded.contains(dir) && below(entries[i].path@, dir));
}

/// Without a search, everything is shown that lies under no folded directory; the folded
/// directories themselves are.
pub proof fn law_unfolded_is_shown(
    entries: Seq<StoredFileEntry>,
    folded: Set<Seq<char>>,
    query: Option<Seq<char>>,
    mode: SortMode,
    l: Seq<StoredFileEntry>,
    i: int,
)
    requires
        scan_entries(entries),
        is_shown(entries, folded, query, mode, l),
        query is None || query->0.len() == 0,
        0 <= i < entries.len(),
        forall|dir: Seq<char>| #[trigger] folded.contains(dir) ==> !below(entries[i].path@, dir),
    ensures
        l.contains(entries[i]),
{
    lemma_members(entries, folded, query, mode, l, i);
}

/// A search shows every entry whose path holds the query, in upper or lower case, unless a folded
/// directory lies above it.
pub proof fn law_search_finds_paths(
    entries: Seq<StoredFileEntry>,
    folded: Set<Seq<char>>,
    query: Seq<char>,
    mode: SortMode,
    l: Seq<StoredFileEntry>,
    i: int,
    at: int,
)
    requires
        scan_entries(entries),
        is_shown(entries, folded, Some(query), mode, l),
        0 <= i < entries.len(),
        forall|dir: Seq<char>| #[trigger] folded.contains(dir) ==> !below(entries[i].path@, dir),
        0 <= at,
        at + lowercase(query).len() <= lowercase(entries[i].path@).len(),
        lowercase(entries[i].path@).subrange(at, at + lowercase(query).len()) == lowercase(query),
    ensures
        l.contains(entries[i]),
{
    let text = lowercase(entries[i].path@);
    let part = lowercase(query);
    assert(text.skip(at).subrange(0, part.len() as int) =~= text.subrange(at, at + part.len()));
    assert(part.is_prefix_of(text.skip(at)));
    assert(matches_query(entries[i], query));
    lemma_members(entries, folded, Some(query), mode, l, i);
}

/// A search shows every entry whose name holds the query, in upper or lower case, unless a folded
/// directory lies above it.
pub proof fn law_search_finds_names(
    entries: Seq<StoredFileEntry>,
    folded: Set<Seq<char>>,
    query: Seq<char>,
    mode: SortMode,
    l: Seq<StoredFileEntry>,
    i: int,
    at: int,
)
    requires
        scan_entries(entries),
        is_shown(entries, folded, Some(query), mode, l),
        0 <= i < entries.len(),
        forall|dir: Seq<char>| #[trigger] folded.contains(dir) ==> !below(entries[i].path@, dir),
        0 <= at,
        at + lowercase(query).len() <= lowercase(entries[i].name@).len(),
        lowercase(entries[i].name@).subrange(at, at + lowercase(query).len()) == lowercase(query),
    ensures
        l.contains(entries[i]),
{
    let text = lowercase(entries[i].name@);
    let part = lowercase(query);
    assert(text.skip(at).subrange(0, part.len() as int) =~= text.subrange(at, at + part.len()));
    assert(part.is_prefix_of(text.skip(at)));
    assert(matches_query(entries[i], query));
    lemma_members(entries, folded, Some(query), mode, l, i);
}

/// With what a search finds, every directory above it is shown.
pub proof fn law_search_shows_above(
    entries: Seq<StoredFileEntry>,
    folded: Set<Seq<char>>,
    query: Seq<char>,
    mode: SortMode,
    l: Seq<StoredFileEntry>,
    m: int,
    i: int,
)
    requires
        scan_entries(entries),
        is_shown(entries, folded, Some(query), mode, l),
        0 <= m < entries.len(),
        0 <= i < entries.len(),
        matches_query(entries[m], query),
        below(entries[m].path@, entries[i].path@),
        forall|dir: Seq<char>| #[trigger]
            folded.contains(dir) ==> !below(entries[m].path@, dir) && !below(
                entries[i].path@,
                dir,
            ),
    ensures
        l.contains(entries[m]),
        l.contains(entries[i]),
{
    assert(!folded_away(entries[m], folded));
    lemma_members(entries, folded, Some(query), mode, l, m);
    lemma_members(entries, folded, Some(query), mode, l, i);
}

/// A search shows nothing else: whatever it shows holds the query in its name or path, or lies
/// above something that does and is not folded away.
pub proof fn law_search_shows_nothing_else(
    entries: Seq<StoredFileEntry>,
    folded: Set<Seq<char>>,
    query: Seq<char>,
    mode: SortMode,
    l: Seq<StoredFileEntry>,
    i: int,
)
    requires
        scan_entries(entries),
        is_shown(entries, folded, Some(query), mode, l),
        query.len() > 0,
        0 <= i < entries.len(),
        l.contains(entries[i]),
    ensures
        matches_query(entries[i], query) || exists|m: int|
            0 <= m < entries.len() && matches_query(#[trigger] entries[m], query) && below(
                entries[m].path@,
                entries[i].path@,
            ) && !folded_away(entries[m], folded),
{
    lemma_members(entries, folded, Some(query), mode, l, i);
    let m = choose|m: int|
        0 <= m < entries.len() && !folded_away(#[trigger] entries[m], folded) && matches_query(
            entries[m],
            query,
        ) && (entries[m].path@ == entries[i].path@ || below(entries[m].path@, entries[i].path@));
    if entries[m].path@ == entries[i].path@ {
        assert(m == i);
    }
}

/// A listing holds entries of the scan and nothing else, and none of them twice.
pub proof fn law_listing_is_of_entries(
    entries: Seq<StoredFileEntry>,
    folded: Set<Seq<char>>,
    query: Option<Seq<char>>,
    mode: SortMode,
    l: Seq<StoredFileEntry>,
)
    requires
        scan_entries(entries),
        is_shown(entries, folded, query, mode, l),
    ensures
        forall|k: int| 0 <= k < l.len() ==> entries.contains(#[trigger] l[k]),
        forall|p: int, q: int|
            0 <= p < q < l.len() ==> (#[trigger] l[p]).path@ != (#[trigger] l[q]).path@,
{
    let v = visible(entries, folded, query);
    let places = lemma_visible(entries, folded, query);
    lemma_forest(entries, folded, query);
    let order = lemma_sorted(v, mode, l);
    assert forall|k: int| 0 <= k < l.len() implies entries.contains(#[trigger] l[k]) by {
        let o = order[k] as int;
        assert(v[o] == entries[places[o]]);
    }
    assert forall|p: int, q: int| 0 <= p < q < l.len() implies (#[trigger] l[p]).path@ != (
    #[trigger] l[q]).path@ by {
        assert(l[p] == v[order[p] as int] && l[q] == v[order[q] as int]);
        assert(order[p] != order[q]);
    }
}

/// By size, of two entries of one directory the larger is listed first, and of two of one size the
/// one that came first; so it is with two entries whose directories are not listed.
pub proof fn law_larger_first(
    entries: Seq<StoredFileEntry>,
    folded: Set<Seq<char>>,
    query: Option<Seq<char>>,
    l: Seq<StoredFileEntry>,
    i: int,
    j: int,
    p: int,
    q: int,
)
    requires
        scan_entries(entries),
        is_shown(entries, folded, query, SortMode::BySize, l),
        0 <= i < entries.len(),
        0 <= j < entries.len(),
        0 <= p < l.len(),
        0 <= q < l.len(),
        l[p] == entries[i],
        l[q] == entries[j],
        entries[i].size > entries[j].size || (entries[i].size == entries[j].size && i < j),
        ({
            ||| (!has_listed_parent(l[p], l) && !has_listed_parent(l[q], l))
            ||| exists|m: int|
                0 <= m < l.len() && parent_is(l[p], #[trigger] l[m]) && parent_is(l[q], l[m])
        }),
    ensures
        p < q,
{
    let v = visible(entries, folded, query);
    let places = lemma_visible(entries, folded, query);
    lemma_forest(entries, folded, query);
    let order = choose|order: Seq<usize>| #[trigger]
        is_size_order(v, order) && l == overlaid(v, visit_roots(v, order, order.len()));
    let listed = visit_roots(v, order, order.len());
    lemma_visit_roots(v, order, order.len());
    law_every_entry_listed(v, order);
    let a = listed[p];
    let b = listed[q];
    assert(v[a as int] == entries[places[a as int]] && v[b as int] == entries[places[b as int]]);
    assert(entries[places[a as int]].path@ == entries[i].path@);
    assert(entries[places[b as int]].path@ == entries[j].path@);
    assert(places[a as int] == i && places[b as int] == j);
    if a >= b {
        if a > b {
            assert(places[b as int] < places[a as int]);
        }
    }
    assert(size_before(v, a as int, b as int));
    if exists|m: int|
        0 <= m < l.len() && parent_is(l[p], #[trigger] l[m]) && parent_is(l[q], l[m]) {
        let m = choose|m: int|
            0 <= m < l.len() && parent_is(l[p], #[trigger] l[m]) && parent_is(l[q], l[m]);
        let parent = listed[m];
        assert(l[m] == v[parent as int]);
        law_siblings_by_size(v, order, parent, a, b);
    } else {
        lemma_no_parent(v, listed, l, p);
        lemma_no_parent(v, listed, l, q);
        law_roots_by_size(v, order, a, b);
    }
    let (x, y) = choose|x: int, y: int|
        0 <= x < y < listed.len() && #[trigger] listed[x] == a && #[trigger] listed[y] == b;
    assert(x == p && y == q);
}

proof fn lemma_no_parent(
    v: Seq<StoredFileEntry>,
    listed: Seq<usize>,
    l: Seq<StoredFileEntry>,
    p: int,
)
    requires
        covers(listed, 0, v.len() as int),
        v.len() <= usize::MAX,
        l.len() == v.len(),
        forall|k: int| 0 <= k < l.len() ==> #[trigger] l[k] == v[listed[k] as int],
        0 <= p < l.len(),
        !has_listed_parent(l[p], l),
    ensures
        is_root(v, listed[p] as int),
{
    let e = v[listed[p] as int];
    assert(l[p] == e);
    if e.parent_path is Some {
        assert forall|j: int| 0 <= j < v.len() implies (#[trigger] v[j]).path@
            != e.parent_path->0@ by {
            assert(listed.contains(j as usize));
            let m = choose|m: int| 0 <= m < listed.len() && listed[m] == j as usize;
            assert(l[m] == v[j]);
            assert(!parent_is(e, l[m]));
        }
    }
}

/// By size, a directory is listed before what it holds, and between the two stands nothing that
/// does not lie in the directory: whatever comes between has its own directory listed before it,
/// at or after this one.
pub proof fn law_contents_right_after(
    entries: Seq<StoredFileEntry>,
    folded: Set<Seq<char>>,
    query: Option<Seq<char>>,
    l: Seq<StoredFileEntry>,
    p: int,
    q: int,
)
    requires
        scan_entries(entries),
        is_shown(entries, folded, query, SortMode::BySize, l),
        0 <= p < l.len(),
        0 <= q < l.len(),
        parent_is(l[q], l[p]),
    ensures
        p < q,
        forall|k: int|
            p < k <= q ==> exists|m: int| p <= m < k && parent_is(#[trigger] l[k], #[trigger] l[m]),
{
    let v = visible(entries, folded, query);
    lemma_forest(entries, folded, query);
    let order = choose|order: Seq<usize>| #[trigger]
        is_size_order(v, order) && l == overlaid(v, visit_roots(v, order, order.len()));
    let listed = visit_roots(v, order, order.len());
    lemma_visit_roots(v, order, order.len());
    law_every_entry_listed(v, order);
    let top = listed[p];
    let (s, t) = law_contents_follow_directory(v, order, top);
    assert(s == p);
    assert(parent_link(v, listed[q], top));
    assert(chain(v, top, top, 0));
    assert(chain(v, top, listed[q], 1));
    assert(descends(v, top, listed[q]));
    assert(p <= q < t);
    if q == p {
        assert(v[top as int].path@.len() < v[top as int].path@.len());
    }
    assert forall|k: int| p < k <= q implies exists|m: int|
        p <= m < k && parent_is(#[trigger] l[k], #[trigger] l[m]) by {
        let x = listed[k];
        assert(descends(v, top, x));
        let n = choose|n: nat| chain(v, top, x, n);
        assert(x != top);
        let y = choose|y: usize| #[trigger]
            parent_link(v, x, y) && chain(v, top, y, (n - 1) as nat);
        assert(descends(v, top, y));
        let (c, d) = law_contents_follow_directory(v, order, y);
        assert(chain(v, y, y, 0));
        assert(chain(v, y, x, 1));
        assert(descends(v, y, x));
        assert(c <= k < d);
        assert(listed[c] == y);
        assert(p <= c < t);
        if c == k {
            assert(v[y as int].path@.len() < v[y as int].path@.len());
        }
        assert(parent_is(l[k], l[c]));
    }
}

/// Where two texts in dictionary order first differ, or the first one runs out.
pub proof fn lemma_text_le_at(a: Seq<char>, b: Seq<char>) -> (k: int)
    requires
        text_le(a, b),
    ensures
        0 <= k <= a.len(),
        k <= b.len(),
        a.take(k) == b.take(k),
        k < a.len() ==> k < b.len() && (a[k] as u32) < (b[k] as u32),
    decreases a.len(),
{
    if a.len() == 0 || a[0] != b[0] {
        assert(a.take(0) =~= b.take(0));
        0
    } else {
        let k = lemma_text_le_at(a.drop_first(), b.drop_first());
        assert(a.take(k + 1) =~= seq![a[0]] + a.drop_first().take(k));
        assert(b.take(k + 1) =~= seq![b[0]] + b.drop_first().take(k));
        k + 1
    }
}

/// By path, entries stand in dictionary order: of two lines, the path of the first runs out where
/// the two are still the same, or has the smaller character where they first differ.
pub proof fn law_dictionary_order(
    entries: Seq<StoredFileEntry>,
    folded: Set<Seq<char>>,
    query: Option<Seq<char>>,
    l: Seq<StoredFileEntry>,
    p: int,
    q: int,
) -> (k: int)
    requires
        is_shown(entries, folded, query, SortMode::ByPath, l),
        0 <= p < q < l.len(),
    ensures
        ({
            let (a, b) = (l[p].path@, l[q].path@);
            &&& 0 <= k <= a.len()
            &&& k <= b.len()
            &&& a.take(k) == b.take(k)
            &&& k < a.len() ==> k < b.len() && (a[k] as u32) < (b[k] as u32)
        }),
{
    let v = visible(entries, folded, query);
    let order = choose|order: Seq<usize>| #[trigger]
        is_path_order(v, order) && l == reordered(v, order);
    assert(path_before(v, order[p] as int, order[q] as int));
    lemma_text_le_at(l[p].path@, l[q].path@)
}

proof fn lemma_first_root(entries: Seq<StoredFileEntry>, order: Seq<usize>, u: int, n: nat)
    requires
        in_range(entries.len(), order),
        0 <= u < n <= order.len(),
        is_root(entries, order[u] as int),
        forall|r: int| 0 <= r < u ==> !is_root(entries, #[trigger] order[r] as int),
    ensures
        visit_roots(entries, order, n).len() > 0,
        visit_roots(entries, order, n)[0] == order[u],
    decreases n,
{
    let done = visit_roots(entries, order, (n - 1) as nat);
    let end = visit_roots(entries, order, n);
    lemma_visit_roots(entries, order, (n - 1) as nat);
    if n - 1 == u {
        lemma_no_root(entries, order, u as nat);
        let begun = done.push(order[u]);
        let children = children_at(entries, order, entries[order[u] as int].path@);
        lemma_children(entries, order, entries[order[u] as int].path@);
        assert(valid_listing(entries.len(), begun));
        lemma_visit_all(entries, order, children, 0, begun);
        assert(end.take(begun.len() as int)[0] == begun[0]);
    } else {
        lemma_first_root(entries, order, u, (n - 1) as nat);
        if is_root(entries, order[n - 1] as int) {
            lemma_visit(entries, order, order[n - 1], done);
            assert(end.take(done.len() as int)[0] == done[0]);
        }
    }
}

proof fn lemma_no_root(entries: Seq<StoredFileEntry>, order: Seq<usize>, n: nat)
    requires
        n <= order.len(),
        forall|r: int| 0 <= r < n ==> !is_root(entries, #[trigger] order[r] as int),
    ensures
        visit_roots(entries, order, n) == Seq::<usize>::empty(),
    decreases n,
{
    if n > 0 {
        lemma_no_root(entries, order, (n - 1) as nat);
        assert(!is_root(entries, order[n - 1] as int));
    }
}

/// Whether the entry starts a tree of its own: it lies at depth zero, or no entry is its directory.
pub open spec fn starts_a_tree(entries: Seq<StoredFileEntry>, e: StoredFileEntry) -> bool {
    e.depth == 0 || !has_listed_parent(e, entries)
}

proof fn lemma_root_starts_a_tree(entries: Seq<StoredFileEntry>, k: int)
    requires
        0 <= k < entries.len(),
    ensures
        is_root(entries, k) <==> starts_a_tree(entries, entries[k]),
{
    let e = entries[k];
    if has_listed_parent(e, entries) {
        let m = choose|m: int| 0 <= m < entries.len() && parent_is(e, #[trigger] entries[m]);
        assert(entries[m].path@ == e.parent_path->0@);
    }
    if e.parent_path is Some && exists|j: int|
        0 <= j < entries.len() && (#[trigger] entries[j]).path@ == e.parent_path->0@ {
        let j = choose|j: int|
            0 <= j < entries.len() && (#[trigger] entries[j]).path@ == e.parent_path->0@;
        assert(parent_is(e, entries[j]));
    }
}

/// By size, the listing starts with the largest of the entries that start a tree of their own,
/// whatever the entries are.
pub proof fn law_starts_with_the_largest(
    entries: Seq<StoredFileEntry>,
    l: Seq<StoredFileEntry>,
    i: int,
)
    requires
        entries.len() <= usize::MAX,
        is_sorted_listing(entries, SortMode::BySize, l),
        0 <= i < entries.len(),
        starts_a_tree(entries, entries[i]),
    ensures
        l.len() == entries.len(),
        starts_a_tree(entries, l[0]),
        l[0].size >= entries[i].size,
{
    let order = choose|order: Seq<usize>| #[trigger]
        is_size_order(entries, order) && l == overlaid(
            entries,
            visit_roots(entries, order, order.len()),
        );
    assert(order.contains(i as usize));
    let v = choose|v: int| 0 <= v < order.len() && order[v] == i as usize;
    lemma_root_starts_a_tree(entries, i);
    let u = lemma_least_root(entries, order, v);
    assert(in_range(entries.len(), order));
    lemma_root_starts_a_tree(entries, order[u] as int);
    lemma_first_root(entries, order, u, order.len());
    assert(entries[order[u] as int].size >= entries[i].size) by {
        if u < v {
            assert(size_before(entries, order[u] as int, order[v] as int));
        }
    }
    assert(l[0] == entries[order[u] as int]);
}

proof fn lemma_least_root(entries: Seq<StoredFileEntry>, order: Seq<usize>, v: int) -> (u: int)
    requires
        0 <= v < order.len(),
        is_root(entries, order[v] as int),
    ensures
        0 <= u <= v,
        is_root(entries, order[u] as int),
        forall|r: int| 0 <= r < u ==> !is_root(entries, #[trigger] order[r] as int),
    decreases v,
{
    if exists|r: int| 0 <= r < v && is_root(entries, #[trigger] order[r] as int) {
        let r = choose|r: int| 0 <= r < v && is_root(entries, #[trigger] order[r] as int);
        lemma_least_root(entries, order, r)
    } else {
        v
    }
}

} // verus!
