//! What holds of every listing of a scan's files.
use vstd::prelude::*;

use crate::db::StoredFileEntry;
use crate::paths::{inside, lies_below};
use crate::sort::{covers, lemma_order_unique};
use crate::text::{lemma_text_le_antisymmetric, lemma_text_le_prefix};
use crate::ui::tree::{
    children_at, extends, in_range, is_child, is_path_order, is_root, is_size_order,
    is_sorted_listing, lemma_children, lemma_extends_contains, lemma_extends_trans,
    lemma_listing_fits, lemma_room, lemma_visit, lemma_visit_all, lemma_visit_roots, path_before,
    size_before, valid_listing, visit, visit_all, visit_roots,
};
use crate::ui::types::SortMode;

verus! {

/// Under [`SortMode::ByPath`](crate::ui::types::SortMode::ByPath) a directory is listed before
/// everything below it.
pub proof fn law_directory_before_contents_by_path(
    entries: Seq<StoredFileEntry>,
    order: Seq<usize>,
    p: int,
    q: int,
)
    requires
        is_path_order(entries, order),
        0 <= p < order.len(),
        0 <= q < order.len(),
        lies_below(entries[order[q] as int].path@, entries[order[p] as int].path@),
    ensures
        p < q,
{
    let above = entries[order[p] as int].path@;
    let below = entries[order[q] as int].path@;
    reveal_strlit("/");
    assert(above.is_prefix_of(below)) by {
        let start = inside(above);
        assert(below.take(above.len() as int) =~= above) by {
            assert forall|k: int| 0 <= k < above.len() implies below[k] == above[k] by {
                assert(start[k] == below[k]);
            }
        }
    }
    if above.len() == below.len() {
        assert(above =~= below);
    }
    lemma_text_le_prefix(above, below);
    if q < p {
        assert(path_before(entries, order[q] as int, order[p] as int));
        lemma_text_le_antisymmetric(above, below);
    }
}

/// The entries make a forest: no two have one path, a directory's path is shorter than those of
/// its children, and what has its parent among the entries does not count as a root.
pub open spec fn forest(entries: Seq<StoredFileEntry>) -> bool {
    &&& forall|i: int, j: int|
        0 <= i < entries.len() && 0 <= j < entries.len() && i != j ==> (
        #[trigger] entries[i]).path@ != (#[trigger] entries[j]).path@
    &&& forall|i: int, j: int|
        0 <= i < entries.len() && 0 <= j < entries.len() && #[trigger] is_child(
            entries[i],
            entries[j].path@,
        ) ==> entries[j].path@.len() < entries[i].path@.len() && !is_root(entries, i)
}

/// Whether the entry at `y` is the parent of the one at `x`.
pub open spec fn parent_link(entries: Seq<StoredFileEntry>, x: usize, y: usize) -> bool {
    y < entries.len() && is_child(entries[x as int], entries[y as int].path@)
}

/// Whether `x` lies `n` levels below `top`.
pub open spec fn chain(entries: Seq<StoredFileEntry>, top: usize, x: usize, n: nat) -> bool
    decreases n,
{
    if n == 0 {
        x == top
    } else {
        exists|y: usize| #[trigger] parent_link(entries, x, y) && chain(entries, top, y, (n - 1) as nat)
    }
}

/// Whether `x` is `top` or lies below it.
pub open spec fn descends(entries: Seq<StoredFileEntry>, top: usize, x: usize) -> bool {
    exists|n: nat| chain(entries, top, x, n)
}

/// Where something is listed, so is its parent.
pub open spec fn upward_closed(entries: Seq<StoredFileEntry>, done: Seq<usize>) -> bool {
    forall|x: usize, j: usize|
        #![trigger done.contains(x), entries[j as int]]
        done.contains(x) && x < entries.len() && j < entries.len() && is_child(
            entries[x as int],
            entries[j as int].path@,
        ) ==> done.contains(j)
}

/// The parent of `x`, where it is an entry, is listed.
pub open spec fn parent_listed(entries: Seq<StoredFileEntry>, done: Seq<usize>, x: usize) -> bool {
    forall|j: usize|
        j < entries.len() && is_child(entries[x as int], (#[trigger] entries[j as int]).path@)
            ==> done.contains(j)
}

/// What is listed in `more` but not in `done` has all its children in `more`.
pub open spec fn children_follow(
    entries: Seq<StoredFileEntry>,
    done: Seq<usize>,
    more: Seq<usize>,
) -> bool {
    forall|x: usize, c: usize|
        #![trigger more.contains(x), more.contains(c)]
        more.contains(x) && !done.contains(x) && c < entries.len() && is_child(
            entries[c as int],
            entries[x as int].path@,
        ) ==> more.contains(c)
}

/// What is listed in `more` but not in `done` is `top` or lies below it.
pub open spec fn only_below(
    entries: Seq<StoredFileEntry>,
    done: Seq<usize>,
    more: Seq<usize>,
    top: usize,
) -> bool {
    forall|x: usize| #[trigger]
        more.contains(x) && !done.contains(x) ==> descends(entries, top, x)
}

proof fn lemma_chain_longer(
    entries: Seq<StoredFileEntry>,
    top: usize,
    child: usize,
    x: usize,
    n: nat,
)
    requires
        top < entries.len(),
        is_child(entries[child as int], entries[top as int].path@),
        chain(entries, child, x, n),
    ensures
        chain(entries, top, x, n + 1),
    decreases n,
{
    if n == 0 {
        assert(parent_link(entries, x, top));
        assert(chain(entries, top, top, 0));
        assert(chain(entries, top, x, 1));
    } else {
        let y = choose|y: usize| #[trigger]
            parent_link(entries, x, y) && chain(entries, child, y, (n - 1) as nat);
        lemma_chain_longer(entries, top, child, y, (n - 1) as nat);
        assert(parent_link(entries, x, y));
    }
}

proof fn lemma_all_children(
    entries: Seq<StoredFileEntry>,
    order: Seq<usize>,
    path: Seq<char>,
    c: usize,
)
    requires
        order.contains(c),
        is_child(entries[c as int], path),
    ensures
        children_at(entries, order, path).contains(c),
    decreases order.len(),
{
    let rest = order.drop_last();
    let all = children_at(entries, order, path);
    let before = children_at(entries, rest, path);
    if order.last() == c {
        assert(all[all.len() - 1] == c);
    } else {
        let k = choose|k: int| 0 <= k < order.len() && order[k] == c;
        assert(rest[k] == c);
        lemma_all_children(entries, rest, path, c);
        let q = choose|q: int| 0 <= q < before.len() && before[q] == c;
        assert(all[q] == c);
    }
}

proof fn lemma_visit_shape(
    entries: Seq<StoredFileEntry>,
    order: Seq<usize>,
    i: usize,
    done: Seq<usize>,
)
    requires
        forest(entries),
        covers(order, 0, entries.len() as int),
        valid_listing(entries.len(), done),
        i < entries.len(),
        upward_closed(entries, done),
        parent_listed(entries, done, i),
    ensures
        upward_closed(entries, visit(entries, order, i, done)),
        children_follow(entries, done, visit(entries, order, i, done)),
        only_below(entries, done, visit(entries, order, i, done), i),
    decreases entries.len() - done.len(), 0nat,
{
    if done.contains(i) {
    } else {
        lemma_room(entries.len(), done, i);
        let begun = done.push(i);
        let path = entries[i as int].path@;
        let children = children_at(entries, order, path);
        lemma_children(entries, order, path);
        assert(begun.contains(i)) by {
            assert(begun[done.len() as int] == i);
        }
        assert forall|x: usize| begun.contains(x) && x != i implies done.contains(x) by {
            let k = choose|k: int| 0 <= k < begun.len() && begun[k] == x;
            assert(done[k] == x);
        }
        assert(extends(done, begun)) by {
            assert(begun.take(done.len() as int) =~= done);
        }
        assert forall|x: usize, j: usize|
            #![trigger begun.contains(x), entries[j as int]]
            begun.contains(x) && x < entries.len() && j < entries.len() && is_child(
                entries[x as int],
                entries[j as int].path@,
            ) implies begun.contains(j) by {
            if x != i {
                assert(done.contains(x));
            }
            assert(done.contains(j));
            lemma_extends_contains(done, begun, j);
        }
        lemma_visit_all_shape(entries, order, children, 0, begun, i);
        lemma_visit_all(entries, order, children, 0, begun);
        let end = visit(entries, order, i, done);
        assert forall|x: usize, c: usize|
            #![trigger end.contains(x), end.contains(c)]
            end.contains(x) && !done.contains(x) && c < entries.len() && is_child(
                entries[c as int],
                entries[x as int].path@,
            ) implies end.contains(c) by {
            if x == i {
                assert(order.contains(c as int as usize));
                lemma_all_children(entries, order, path, c);
                let p = choose|p: int| 0 <= p < children.len() && children[p] == c;
                assert(end.contains(children[p]));
            } else {
                assert(!begun.contains(x));
            }
        }
        assert forall|x: usize| #[trigger]
            end.contains(x) && !done.contains(x) implies descends(entries, i, x) by {
            if x == i {
                assert(chain(entries, i, x, 0));
            } else {
                assert(!begun.contains(x));
            }
        }
    }
}

proof fn lemma_visit_all_shape(
    entries: Seq<StoredFileEntry>,
    order: Seq<usize>,
    children: Seq<usize>,
    k: nat,
    done: Seq<usize>,
    parent: usize,
)
    requires
        forest(entries),
        covers(order, 0, entries.len() as int),
        in_range(entries.len(), children),
        valid_listing(entries.len(), done),
        upward_closed(entries, done),
        parent < entries.len(),
        done.contains(parent),
        forall|p: int|
            0 <= p < children.len() ==> is_child(
                entries[#[trigger] children[p] as int],
                entries[parent as int].path@,
            ),
    ensures
        upward_closed(entries, visit_all(entries, order, children, k, done)),
        children_follow(entries, done, visit_all(entries, order, children, k, done)),
        only_below(entries, done, visit_all(entries, order, children, k, done), parent),
    decreases entries.len() - done.len(), 1 + children.len() - k,
{
    lemma_listing_fits(entries.len(), done);
    if k < children.len() {
        let c = children[k as int];
        let next = visit(entries, order, c, done);
        assert(parent_listed(entries, done, c)) by {
            assert forall|j: usize|
                j < entries.len() && is_child(
                    entries[c as int],
                    (#[trigger] entries[j as int]).path@,
                ) implies done.contains(j) by {
                assert(entries[j as int].path@ == entries[parent as int].path@);
            }
        }
        lemma_visit(entries, order, c, done);
        lemma_listing_fits(entries.len(), next);
        lemma_visit_shape(entries, order, c, done);
        lemma_extends_contains(done, next, parent);
        lemma_visit_all(entries, order, children, k, done);
        lemma_visit_all(entries, order, children, k + 1, next);
        lemma_visit_all_shape(entries, order, children, k + 1, next, parent);
        let end = visit_all(entries, order, children, k, done);
        assert(end == visit_all(entries, order, children, k + 1, next));
        assert forall|x: usize, c2: usize|
            #![trigger end.contains(x), end.contains(c2)]
            end.contains(x) && !done.contains(x) && c2 < entries.len() && is_child(
                entries[c2 as int],
                entries[x as int].path@,
            ) implies end.contains(c2) by {
            if next.contains(x) {
                assert(next.contains(c2) || !next.contains(c2));
                assert(next.contains(c2));
                lemma_extends_contains(next, end, c2);
            }
        }
        assert forall|x: usize| #[trigger]
            end.contains(x) && !done.contains(x) implies descends(entries, parent, x) by {
            if next.contains(x) {
                assert(descends(entries, c, x));
                let n = choose|n: nat| chain(entries, c, x, n);
                lemma_chain_longer(entries, parent, c, x, n);
            }
        }
    }
}

proof fn lemma_visit_roots_shape(entries: Seq<StoredFileEntry>, order: Seq<usize>, n: nat)
    requires
        forest(entries),
        covers(order, 0, entries.len() as int),
        n <= order.len(),
    ensures
        upward_closed(entries, visit_roots(entries, order, n)),
        children_follow(entries, Seq::empty(), visit_roots(entries, order, n)),
        forall|r: int|
            0 <= r < n && is_root(entries, #[trigger] order[r] as int) ==> visit_roots(
                entries,
                order,
                n,
            ).contains(order[r]),
    decreases n,
{
    if n > 0 {
        let done = visit_roots(entries, order, (n - 1) as nat);
        lemma_visit_roots_shape(entries, order, (n - 1) as nat);
        lemma_visit_roots(entries, order, (n - 1) as nat);
        if is_root(entries, order[n - 1] as int) {
            let i = order[n - 1];
            let end = visit_roots(entries, order, n);
            assert(parent_listed(entries, done, i)) by {
                assert forall|j: usize|
                    j < entries.len() && is_child(
                        entries[i as int],
                        (#[trigger] entries[j as int]).path@,
                    ) implies done.contains(j) by {
                    assert(!is_root(entries, i as int));
                }
            }
            lemma_visit(entries, order, i, done);
            lemma_visit_shape(entries, order, i, done);
            assert forall|x: usize, c: usize|
                #![trigger end.contains(x), end.contains(c)]
                end.contains(x) && c < entries.len() && is_child(
                    entries[c as int],
                    entries[x as int].path@,
                ) implies end.contains(c) by {
                if done.contains(x) {
                    assert(!Seq::<usize>::empty().contains(x));
                    assert(done.contains(c) || !done.contains(c));
                    assert(done.contains(c));
                    lemma_extends_contains(done, end, c);
                }
            }
            assert forall|r: int|
                0 <= r < n && is_root(entries, #[trigger] order[r] as int) implies end.contains(
                order[r],
            ) by {
                if r < n - 1 {
                    lemma_extends_contains(done, end, order[r]);
                }
            }
        }
    }
}

proof fn lemma_listed(entries: Seq<StoredFileEntry>, order: Seq<usize>, x: usize)
    requires
        forest(entries),
        covers(order, 0, entries.len() as int),
        entries.len() <= usize::MAX,
        x < entries.len(),
    ensures
        visit_roots(entries, order, order.len()).contains(x),
    decreases entries[x as int].path@.len(),
{
    let all = visit_roots(entries, order, order.len());
    lemma_visit_roots_shape(entries, order, order.len());
    if is_root(entries, x as int) {
        assert(order.contains(x as int as usize));
        let r = choose|r: int| 0 <= r < order.len() && order[r] == x;
        assert(all.contains(order[r]));
    } else {
        let j = choose|j: int|
            0 <= j < entries.len() && (#[trigger] entries[j]).path@
                == entries[x as int].parent_path->0@;
        assert(is_child(entries[x as int], entries[j].path@));
        lemma_listed(entries, order, j as usize);
        assert(all.contains(j as usize));
        assert(!Seq::<usize>::empty().contains(j as usize));
        assert(all.contains(x) || !all.contains(x));
    }
}

/// By size, every entry of a forest is listed once.
pub proof fn law_every_entry_listed(entries: Seq<StoredFileEntry>, order: Seq<usize>)
    requires
        forest(entries),
        is_size_order(entries, order),
        entries.len() <= usize::MAX,
    ensures
        covers(visit_roots(entries, order, order.len()), 0, entries.len() as int),
{
    let all = visit_roots(entries, order, order.len());
    lemma_visit_roots(entries, order, order.len());
    lemma_listing_fits(entries.len(), all);
    assert forall|i: int| 0 <= i < entries.len() implies #[trigger] all.contains(i as usize) by {
        lemma_listed(entries, order, i as usize);
    }
    let places = all.map_values(|u: usize| u as int);
    assert(places.no_duplicates());
    places.unique_seq_to_set();
    let whole = vstd::set_lib::set_int_range(0, entries.len() as int);
    vstd::set_lib::lemma_int_range(0, entries.len() as int);
    assert(whole.subset_of(places.to_set())) by {
        assert forall|x: int| whole.contains(x) implies places.to_set().contains(x) by {
            assert(all.contains(x as usize));
            let k = choose|k: int| 0 <= k < all.len() && all[k] == x as usize;
            assert(places[k] == x);
        }
    }
    vstd::set_lib::lemma_len_subset(whole, places.to_set());
}

/// The `x`th entry was listed, with all below it, right after `d`, and `more` starts with that.
spec fn listed_after(
    entries: Seq<StoredFileEntry>,
    order: Seq<usize>,
    x: usize,
    d: Seq<usize>,
    more: Seq<usize>,
) -> bool {
    &&& !d.contains(x)
    &&& valid_listing(entries.len(), d)
    &&& upward_closed(entries, d)
    &&& parent_listed(entries, d, x)
    &&& extends(visit(entries, order, x, d), more)
}

proof fn lemma_find_in_visit(
    entries: Seq<StoredFileEntry>,
    order: Seq<usize>,
    i: usize,
    done: Seq<usize>,
    x: usize,
) -> (d: Seq<usize>)
    requires
        forest(entries),
        covers(order, 0, entries.len() as int),
        valid_listing(entries.len(), done),
        i < entries.len(),
        upward_closed(entries, done),
        parent_listed(entries, done, i),
        visit(entries, order, i, done).contains(x),
        !done.contains(x),
    ensures
        listed_after(entries, order, x, d, visit(entries, order, i, done)),
    decreases entries.len() - done.len(), 0nat,
{
    let end = visit(entries, order, i, done);
    if x == i {
        assert(end.take(end.len() as int) =~= end);
        done
    } else {
        assert(!done.contains(i));
        lemma_room(entries.len(), done, i);
        let begun = done.push(i);
        let path = entries[i as int].path@;
        let children = children_at(entries, order, path);
        lemma_children(entries, order, path);
        lemma_begun(entries, done, i);
        lemma_find_in_all(entries, order, children, 0, begun, i, x)
    }
}

proof fn lemma_begun(entries: Seq<StoredFileEntry>, done: Seq<usize>, i: usize)
    requires
        upward_closed(entries, done),
        parent_listed(entries, done, i),
    ensures
        upward_closed(entries, done.push(i)),
        done.push(i).contains(i),
        forall|x: usize| #[trigger] done.push(i).contains(x) <==> done.contains(x) || x == i,
{
    let begun = done.push(i);
    assert(begun[done.len() as int] == i);
    assert(extends(done, begun)) by {
        assert(begun.take(done.len() as int) =~= done);
    }
    assert forall|x: usize| #[trigger] begun.contains(x) <==> done.contains(x) || x == i by {
        if begun.contains(x) && x != i {
            let k = choose|k: int| 0 <= k < begun.len() && begun[k] == x;
            assert(done[k] == x);
        }
        if done.contains(x) {
            lemma_extends_contains(done, begun, x);
        }
    }
    assert forall|x: usize, j: usize|
        #![trigger begun.contains(x), entries[j as int]]
        begun.contains(x) && x < entries.len() && j < entries.len() && is_child(
            entries[x as int],
            entries[j as int].path@,
        ) implies begun.contains(j) by {
        if x != i {
            assert(done.contains(x));
        }
        assert(done.contains(j));
    }
}

proof fn lemma_find_in_all(
    entries: Seq<StoredFileEntry>,
    order: Seq<usize>,
    children: Seq<usize>,
    k: nat,
    done: Seq<usize>,
    parent: usize,
    x: usize,
) -> (d: Seq<usize>)
    requires
        forest(entries),
        covers(order, 0, entries.len() as int),
        in_range(entries.len(), children),
        valid_listing(entries.len(), done),
        upward_closed(entries, done),
        parent < entries.len(),
        done.contains(parent),
        forall|p: int|
            0 <= p < children.len() ==> is_child(
                entries[#[trigger] children[p] as int],
                entries[parent as int].path@,
            ),
        visit_all(entries, order, children, k, done).contains(x),
        !done.contains(x),
    ensures
        listed_after(entries, order, x, d, visit_all(entries, order, children, k, done)),
    decreases entries.len() - done.len(), 1 + children.len() - k,
{
    lemma_listing_fits(entries.len(), done);
    assert(k < children.len());
    let c = children[k as int];
    let next = visit(entries, order, c, done);
    let end = visit_all(entries, order, children, k, done);
    assert(parent_listed(entries, done, c)) by {
        assert forall|j: usize|
            j < entries.len() && is_child(
                entries[c as int],
                (#[trigger] entries[j as int]).path@,
            ) implies done.contains(j) by {
            assert(entries[j as int].path@ == entries[parent as int].path@);
        }
    }
    lemma_visit(entries, order, c, done);
    lemma_listing_fits(entries.len(), next);
    lemma_visit_shape(entries, order, c, done);
    lemma_extends_contains(done, next, parent);
    lemma_visit_all(entries, order, children, k, done);
    lemma_visit_all(entries, order, children, k + 1, next);
    if next.contains(x) {
        let d = lemma_find_in_visit(entries, order, c, done, x);
        lemma_extends_trans(visit(entries, order, x, d), next, end);
        d
    } else {
        lemma_find_in_all(entries, order, children, k + 1, next, parent, x)
    }
}

proof fn lemma_find_in_roots(
    entries: Seq<StoredFileEntry>,
    order: Seq<usize>,
    n: nat,
    x: usize,
) -> (d: Seq<usize>)
    requires
        forest(entries),
        covers(order, 0, entries.len() as int),
        n <= order.len(),
        visit_roots(entries, order, n).contains(x),
    ensures
        listed_after(entries, order, x, d, visit_roots(entries, order, n)),
    decreases n,
{
    let done = visit_roots(entries, order, (n - 1) as nat);
    let end = visit_roots(entries, order, n);
    lemma_visit_roots(entries, order, (n - 1) as nat);
    lemma_visit_roots_shape(entries, order, (n - 1) as nat);
    if !is_root(entries, order[n - 1] as int) {
        lemma_find_in_roots(entries, order, (n - 1) as nat, x)
    } else {
        let i = order[n - 1];
        lemma_visit(entries, order, i, done);
        if done.contains(x) {
            let d = lemma_find_in_roots(entries, order, (n - 1) as nat, x);
            lemma_extends_trans(visit(entries, order, x, d), done, end);
            d
        } else {
            assert(parent_listed(entries, done, i)) by {
                assert forall|j: usize|
                    j < entries.len() && is_child(
                        entries[i as int],
                        (#[trigger] entries[j as int]).path@,
                    ) implies done.contains(j) by {
                    assert(!is_root(entries, i as int));
                }
            }
            lemma_find_in_visit(entries, order, i, done, x)
        }
    }
}

proof fn lemma_chain_up(
    entries: Seq<StoredFileEntry>,
    done: Seq<usize>,
    top: usize,
    x: usize,
    n: nat,
)
    requires
        upward_closed(entries, done),
        valid_listing(entries.len(), done),
        chain(entries, top, x, n),
        done.contains(x),
    ensures
        done.contains(top),
    decreases n,
{
    if n > 0 {
        let y = choose|y: usize| #[trigger]
            parent_link(entries, x, y) && chain(entries, top, y, (n - 1) as nat);
        let k = choose|k: int| 0 <= k < done.len() && done[k] == x;
        assert(done[k] < entries.len());
        assert(entries[y as int] == entries[y as int]);
        assert(done.contains(y));
        lemma_chain_up(entries, done, top, y, (n - 1) as nat);
    }
}

proof fn lemma_chain_down(
    entries: Seq<StoredFileEntry>,
    d: Seq<usize>,
    more: Seq<usize>,
    top: usize,
    x: usize,
    n: nat,
)
    requires
        upward_closed(entries, d),
        valid_listing(entries.len(), d),
        children_follow(entries, d, more),
        !d.contains(top),
        more.contains(top),
        x < entries.len(),
        chain(entries, top, x, n),
    ensures
        more.contains(x),
    decreases n,
{
    if n > 0 {
        let y = choose|y: usize| #[trigger]
            parent_link(entries, x, y) && chain(entries, top, y, (n - 1) as nat);
        lemma_chain_down(entries, d, more, top, y, (n - 1) as nat);
        if d.contains(y) {
            lemma_chain_up(entries, d, top, y, (n - 1) as nat);
        }
        assert(more.contains(y));
        assert(more.contains(x) || !more.contains(x));
    }
}

/// By size, all that lies below a directory comes right after it, and nothing else in between:
/// from `p` on the listing holds the directory, then what is below it, up to `q`.
pub proof fn law_contents_follow_directory(
    entries: Seq<StoredFileEntry>,
    order: Seq<usize>,
    i: usize,
) -> (span: (int, int))
    requires
        forest(entries),
        is_size_order(entries, order),
        entries.len() <= usize::MAX,
        i < entries.len(),
    ensures
        ({
            let all = visit_roots(entries, order, order.len());
            let (p, q) = span;
            &&& 0 <= p < q <= all.len()
            &&& all[p] == i
            &&& forall|k: int|
                0 <= k < all.len() ==> (p <= k < q <==> descends(entries, i, #[trigger] all[k]))
        }),
{
    let all = visit_roots(entries, order, order.len());
    lemma_listed(entries, order, i);
    lemma_visit_roots(entries, order, order.len());
    let d = lemma_find_in_roots(entries, order, order.len(), i);
    let block = visit(entries, order, i, d);
    lemma_visit(entries, order, i, d);
    lemma_visit_shape(entries, order, i, d);
    lemma_room(entries.len(), d, i);
    let p = d.len() as int;
    let q = block.len() as int;
    let path = entries[i as int].path@;
    let children = children_at(entries, order, path);
    lemma_children(entries, order, path);
    lemma_visit_all(entries, order, children, 0, d.push(i));
    assert(block.take(d.push(i).len() as int)[p] == d.push(i)[p]);
    assert(all.take(q)[p] == block[p]);
    assert forall|k: int| 0 <= k < all.len() implies (p <= k < q <==> descends(
        entries,
        i,
        #[trigger] all[k],
    )) by {
        let x = all[k];
        assert(x < entries.len());
        if p <= k < q {
            assert(all.take(q)[k] == block[k]);
            assert(block.contains(x));
            if d.contains(x) {
                let m = choose|m: int| 0 <= m < d.len() && d[m] == x;
                assert(block.take(p)[m] == d[m]);
                assert(block[m] == block[k]);
            }
        }
        if descends(entries, i, x) {
            let n = choose|n: nat| chain(entries, i, x, n);
            lemma_chain_down(entries, d, block, i, x, n);
            let m = choose|m: int| 0 <= m < block.len() && block[m] == x;
            assert(all.take(q)[m] == block[m]);
            assert(all[m] == all[k]);
            assert(m == k);
            if k < p {
                assert(block.take(p)[k] == d[k]);
                assert(d.contains(x));
                lemma_chain_up(entries, d, i, x, n);
            }
        }
    }
    (p, q)
}

/// Whether `a` is listed somewhere before `b`.
pub open spec fn listed_before(listed: Seq<usize>, a: usize, b: usize) -> bool {
    exists|u: int, v: int|
        0 <= u < v < listed.len() && #[trigger] listed[u] == a && #[trigger] listed[v] == b
}

proof fn lemma_chain_lengths(entries: Seq<StoredFileEntry>, top: usize, x: usize, n: nat)
    requires
        forest(entries),
        x < entries.len(),
        chain(entries, top, x, n),
    ensures
        entries[top as int].path@.len() <= entries[x as int].path@.len(),
    decreases n,
{
    if n > 0 {
        let y = choose|y: usize| #[trigger]
            parent_link(entries, x, y) && chain(entries, top, y, (n - 1) as nat);
        lemma_chain_lengths(entries, top, y, (n - 1) as nat);
    }
}

proof fn lemma_siblings_apart(
    entries: Seq<StoredFileEntry>,
    parent: usize,
    a: usize,
    b: usize,
)
    requires
        forest(entries),
        parent < entries.len(),
        a < entries.len(),
        b < entries.len(),
        a != b,
        is_child(entries[a as int], entries[parent as int].path@),
        is_child(entries[b as int], entries[parent as int].path@),
    ensures
        !descends(entries, a, b),
{
    if descends(entries, a, b) {
        let n = choose|n: nat| chain(entries, a, b, n);
        assert(n > 0);
        let y = choose|y: usize| #[trigger]
            parent_link(entries, b, y) && chain(entries, a, y, (n - 1) as nat);
        assert(entries[y as int].path@ == entries[parent as int].path@);
        assert(y == parent);
        lemma_chain_lengths(entries, a, y, (n - 1) as nat);
    }
}

proof fn lemma_visit_all_order(
    entries: Seq<StoredFileEntry>,
    order: Seq<usize>,
    children: Seq<usize>,
    k: nat,
    done: Seq<usize>,
    parent: usize,
    p: int,
    q: int,
)
    requires
        forest(entries),
        covers(order, 0, entries.len() as int),
        in_range(entries.len(), children),
        valid_listing(entries.len(), done),
        upward_closed(entries, done),
        parent < entries.len(),
        done.contains(parent),
        forall|p: int|
            0 <= p < children.len() ==> is_child(
                entries[#[trigger] children[p] as int],
                entries[parent as int].path@,
            ),
        k <= p < q < children.len(),
        children[p] != children[q],
        !done.contains(children[p]),
        !done.contains(children[q]),
        forall|r: int| k <= r < children.len() && r != p ==> #[trigger] children[r] != children[p],
        forall|r: int| k <= r < children.len() && r != q ==> #[trigger] children[r] != children[q],
    ensures
        listed_before(visit_all(entries, order, children, k, done), children[p], children[q]),
    decreases entries.len() - done.len(), 1 + children.len() - k,
{
    lemma_listing_fits(entries.len(), done);
    let c = children[k as int];
    let a = children[p];
    let b = children[q];
    let next = visit(entries, order, c, done);
    let end = visit_all(entries, order, children, k, done);
    assert(parent_listed(entries, done, c)) by {
        assert forall|j: usize|
            j < entries.len() && is_child(
                entries[c as int],
                (#[trigger] entries[j as int]).path@,
            ) implies done.contains(j) by {
            assert(entries[j as int].path@ == entries[parent as int].path@);
        }
    }
    lemma_visit(entries, order, c, done);
    lemma_listing_fits(entries.len(), next);
    lemma_visit_shape(entries, order, c, done);
    lemma_extends_contains(done, next, parent);
    lemma_visit_all(entries, order, children, k, done);
    lemma_visit_all(entries, order, children, k + 1, next);
    lemma_siblings_apart(entries, parent, c, b);
    assert(!next.contains(b));
    if p == k {
        let u = choose|u: int| 0 <= u < next.len() && next[u] == a;
        assert(end.take(next.len() as int)[u] == a);
        assert(end.contains(children[q]));
        let v = choose|v: int| 0 <= v < end.len() && end[v] == b;
        if v < next.len() {
            assert(end.take(next.len() as int)[v] == next[v]);
            assert(next.contains(b));
        }
        assert(end[u] == a && end[v] == b);
    } else {
        lemma_siblings_apart(entries, parent, c, a);
        assert(!next.contains(a));
        lemma_visit_all_order(entries, order, children, k + 1, next, parent, p, q);
    }
}

proof fn lemma_children_order(
    entries: Seq<StoredFileEntry>,
    order: Seq<usize>,
    path: Seq<char>,
    u: int,
    v: int,
)
    requires
        0 <= u < v < order.len(),
        is_child(entries[order[u] as int], path),
        is_child(entries[order[v] as int], path),
    ensures
        listed_before(children_at(entries, order, path), order[u], order[v]),
    decreases order.len(),
{
    let rest = order.drop_last();
    let all = children_at(entries, order, path);
    let before = children_at(entries, rest, path);
    if v == order.len() - 1 {
        assert(rest[u] == order[u]);
        lemma_all_children(entries, rest, path, order[u]);
        let k = choose|k: int| 0 <= k < before.len() && before[k] == order[u];
        assert(all[k] == order[u]);
        assert(all[all.len() - 1] == order[v]);
    } else {
        assert(rest[u] == order[u] && rest[v] == order[v]);
        lemma_children_order(entries, rest, path, u, v);
        let (x, y) = choose|x: int, y: int|
            0 <= x < y < before.len() && #[trigger] before[x] == order[u] && #[trigger] before[y]
                == order[v];
        assert(all[x] == order[u] && all[y] == order[v]);
    }
}

proof fn lemma_children_distinct(entries: Seq<StoredFileEntry>, order: Seq<usize>, path: Seq<char>)
    requires
        order.no_duplicates(),
    ensures
        children_at(entries, order, path).no_duplicates(),
        forall|c: usize| #[trigger]
            children_at(entries, order, path).contains(c) ==> order.contains(c),
    decreases order.len(),
{
    if order.len() > 0 {
        let rest = order.drop_last();
        let all = children_at(entries, order, path);
        let before = children_at(entries, rest, path);
        assert(rest.no_duplicates()) by {
            assert forall|x: int, y: int|
                0 <= x < rest.len() && 0 <= y < rest.len() && x != y implies rest[x] != rest[y] by {
                assert(rest[x] == order[x] && rest[y] == order[y]);
            }
        }
        lemma_children_distinct(entries, rest, path);
        assert(!rest.contains(order.last())) by {
            if rest.contains(order.last()) {
                let k = choose|k: int| 0 <= k < rest.len() && rest[k] == order.last();
                assert(order[k] == order[order.len() - 1]);
            }
        }
        assert forall|c: usize| #[trigger] all.contains(c) implies order.contains(c) by {
            let k = choose|k: int| 0 <= k < all.len() && all[k] == c;
            if k < before.len() {
                assert(before[k] == c);
                assert(before.contains(c));
                let m = choose|m: int| 0 <= m < rest.len() && rest[m] == c;
                assert(order[m] == c);
            } else {
                assert(order[order.len() - 1] == c);
            }
        }
        assert forall|x: int, y: int|
            0 <= x < all.len() && 0 <= y < all.len() && x != y implies all[x] != all[y] by {
            if x < before.len() && y < before.len() {
                assert(before[x] != before[y]);
            } else if x < before.len() {
                assert(before.contains(before[x]));
            } else {
                assert(before.contains(before[y]));
            }
        }
    }
}

proof fn lemma_size_order_distinct(entries: Seq<StoredFileEntry>, order: Seq<usize>)
    requires
        is_size_order(entries, order),
    ensures
        order.no_duplicates(),
{
    assert forall|x: int, y: int|
        0 <= x < order.len() && 0 <= y < order.len() && x != y implies order[x] != order[y] by {
        if x < y {
            assert(size_before(entries, order[x] as int, order[y] as int));
        } else {
            assert(size_before(entries, order[y] as int, order[x] as int));
        }
    }
}

/// By size, of two children of one directory the larger is listed first; of two of one size, the
/// one that came first.
pub proof fn law_siblings_by_size(
    entries: Seq<StoredFileEntry>,
    order: Seq<usize>,
    parent: usize,
    a: usize,
    b: usize,
)
    requires
        forest(entries),
        is_size_order(entries, order),
        entries.len() <= usize::MAX,
        parent < entries.len(),
        a < entries.len(),
        b < entries.len(),
        is_child(entries[a as int], entries[parent as int].path@),
        is_child(entries[b as int], entries[parent as int].path@),
        size_before(entries, a as int, b as int),
    ensures
        listed_before(visit_roots(entries, order, order.len()), a, b),
{
    let all = visit_roots(entries, order, order.len());
    let path = entries[parent as int].path@;
    lemma_listed(entries, order, parent);
    lemma_visit_roots(entries, order, order.len());
    let d = lemma_find_in_roots(entries, order, order.len(), parent);
    let block = visit(entries, order, parent, d);
    lemma_room(entries.len(), d, parent);
    lemma_begun(entries, d, parent);
    let begun = d.push(parent);
    let children = children_at(entries, order, path);
    lemma_children(entries, order, path);
    assert(order.contains(a as int as usize) && order.contains(b as int as usize));
    let u = choose|u: int| 0 <= u < order.len() && order[u] == a;
    let v = choose|v: int| 0 <= v < order.len() && order[v] == b;
    assert(u < v) by {
        if v < u {
            assert(size_before(entries, order[v] as int, order[u] as int));
        }
    }
    lemma_size_order_distinct(entries, order);
    lemma_children_order(entries, order, path, u, v);
    lemma_children_distinct(entries, order, path);
    let (p, q) = choose|p: int, q: int|
        0 <= p < q < children.len() && #[trigger] children[p] == a && #[trigger] children[q] == b;
    assert(!begun.contains(a)) by {
        if d.contains(a) {
            assert(entries[parent as int] == entries[parent as int]);
            assert(d.contains(parent));
        }
    }
    assert(!begun.contains(b)) by {
        if d.contains(b) {
            assert(entries[parent as int] == entries[parent as int]);
            assert(d.contains(parent));
        }
    }
    lemma_visit_all_order(entries, order, children, 0, begun, parent, p, q);
    let (x, y) = choose|x: int, y: int|
        0 <= x < y < block.len() && #[trigger] block[x] == a && #[trigger] block[y] == b;
    assert(all.take(block.len() as int)[x] == a);
    assert(all.take(block.len() as int)[y] == b);
    assert(all[x] == a && all[y] == b);
}

proof fn lemma_roots_order(
    entries: Seq<StoredFileEntry>,
    order: Seq<usize>,
    u: int,
    v: int,
    n: nat,
)
    requires
        forest(entries),
        covers(order, 0, entries.len() as int),
        order.no_duplicates(),
        0 <= u < v < n <= order.len(),
        is_root(entries, order[u] as int),
        is_root(entries, order[v] as int),
    ensures
        listed_before(visit_roots(entries, order, n), order[u], order[v]),
    decreases n,
{
    let done = visit_roots(entries, order, (n - 1) as nat);
    let end = visit_roots(entries, order, n);
    let i = order[n - 1];
    lemma_visit_roots(entries, order, (n - 1) as nat);
    lemma_visit_roots_shape(entries, order, (n - 1) as nat);
    if is_root(entries, i as int) {
        lemma_visit(entries, order, i, done);
    } else {
        assert(end.take(done.len() as int) =~= done);
    }
    if v < n - 1 {
        lemma_roots_order(entries, order, u, v, (n - 1) as nat);
        let (x, y) = choose|x: int, y: int|
            0 <= x < y < done.len() && #[trigger] done[x] == order[u] && #[trigger] done[y]
                == order[v];
        assert(end.take(done.len() as int)[x] == done[x]);
        assert(end.take(done.len() as int)[y] == done[y]);
        assert(end[x] == order[u] && end[y] == order[v]);
    } else {
        assert(done.contains(order[u]));
        let x = choose|x: int| 0 <= x < done.len() && done[x] == order[u];
        assert(end.take(done.len() as int)[x] == done[x]);
        assert(!done.contains(order[v])) by {
            lemma_root_waits(entries, order, v, (n - 1) as nat);
        }
        let y = choose|y: int| 0 <= y < end.len() && end[y] == order[v];
        if y < done.len() {
            assert(end.take(done.len() as int)[y] == done[y]);
            assert(done.contains(order[v]));
        }
        assert(end[x] == order[u] && end[y] == order[v]);
    }
}

proof fn lemma_root_waits(entries: Seq<StoredFileEntry>, order: Seq<usize>, v: int, n: nat)
    requires
        forest(entries),
        covers(order, 0, entries.len() as int),
        order.no_duplicates(),
        n <= v < order.len(),
        is_root(entries, order[v] as int),
    ensures
        !visit_roots(entries, order, n).contains(order[v]),
    decreases n,
{
    if n > 0 {
        let done = visit_roots(entries, order, (n - 1) as nat);
        lemma_root_waits(entries, order, v, (n - 1) as nat);
        lemma_visit_roots(entries, order, (n - 1) as nat);
        lemma_visit_roots_shape(entries, order, (n - 1) as nat);
        let i = order[n - 1];
        if is_root(entries, i as int) {
            assert(parent_listed(entries, done, i)) by {
                assert forall|j: usize|
                    j < entries.len() && is_child(
                        entries[i as int],
                        (#[trigger] entries[j as int]).path@,
                    ) implies done.contains(j) by {
                    assert(!is_root(entries, i as int));
                }
            }
            lemma_visit_shape(entries, order, i, done);
            let end = visit(entries, order, i, done);
            if end.contains(order[v]) {
                assert(descends(entries, i, order[v]));
                let m = choose|m: nat| chain(entries, i, order[v], m);
                assert(i != order[v]);
                let y = choose|y: usize| #[trigger]
                    parent_link(entries, order[v], y) && chain(entries, i, y, (m - 1) as nat);
                assert(!is_root(entries, order[v] as int));
            }
        }
    }
}

/// By size, of two entries whose parents are not listed the larger is listed first; of two of one
/// size, the one that came first.
pub proof fn law_roots_by_size(
    entries: Seq<StoredFileEntry>,
    order: Seq<usize>,
    a: usize,
    b: usize,
)
    requires
        forest(entries),
        is_size_order(entries, order),
        entries.len() <= usize::MAX,
        a < entries.len(),
        b < entries.len(),
        is_root(entries, a as int),
        is_root(entries, b as int),
        size_before(entries, a as int, b as int),
    ensures
        listed_before(visit_roots(entries, order, order.len()), a, b),
{
    assert(order.contains(a as int as usize) && order.contains(b as int as usize));
    let u = choose|u: int| 0 <= u < order.len() && order[u] == a;
    let v = choose|v: int| 0 <= v < order.len() && order[v] == b;
    assert(u < v) by {
        if v < u {
            assert(size_before(entries, order[v] as int, order[u] as int));
        }
    }
    lemma_size_order_distinct(entries, order);
    lemma_roots_order(entries, order, u, v, order.len());
}

/// Entries are listed in one way only.
pub proof fn law_listing_determined(
    entries: Seq<StoredFileEntry>,
    mode: SortMode,
    a: Seq<StoredFileEntry>,
    b: Seq<StoredFileEntry>,
)
    requires
        is_sorted_listing(entries, mode, a),
        is_sorted_listing(entries, mode, b),
    ensures
        a == b,
{
    let n = entries.len() as int;
    match mode {
        SortMode::ByPath => {
            let before = |i: int, j: int| path_before(entries, i, j);
            let x = choose|x: Seq<usize>| #[trigger]
                is_path_order(entries, x) && a == crate::ui::tree::reordered(entries, x);
            let y = choose|y: Seq<usize>| #[trigger]
                is_path_order(entries, y) && b == crate::ui::tree::reordered(entries, y);
            lemma_order_unique(n, before, x, y);
        },
        SortMode::BySize => {
            let before = |i: int, j: int| size_before(entries, i, j);
            let x = choose|x: Seq<usize>| #[trigger]
                is_size_order(entries, x) && a == crate::ui::tree::overlaid(
                    entries,
                    visit_roots(entries, x, x.len()),
                );
            let y = choose|y: Seq<usize>| #[trigger]
                is_size_order(entries, y) && b == crate::ui::tree::overlaid(
                    entries,
                    visit_roots(entries, y, y.len()),
                );
            lemma_order_unique(n, before, x, y);
        },
    }
}

} // verus!
