//! Stable sorting.
//!
//! Sorting a list means finding the order of its positions: `sorted_order` returns the one
//! permutation in which smaller keys come first and equal keys keep their places.
use crate::text::{chars_le, lemma_text_le_total, lemma_text_le_transitive};
use vstd::prelude::*;

verus! {

/// A kind of key that lists are sorted by.
pub trait SortKey: Sized {
    /// `self` may stand before `other`.
    spec fn le(&self, other: &Self) -> bool;

    proof fn le_total(a: &Self, b: &Self)
        ensures
            a.le(b) || b.le(a),
    ;

    proof fn le_transitive(a: &Self, b: &Self, c: &Self)
        requires
            a.le(b),
            b.le(c),
        ensures
            a.le(c),
    ;

    fn may_precede(&self, other: &Self) -> (b: bool)
        ensures
            b == self.le(other),
    ;
}

/// Sorts the largest number to the front.
pub struct LargestFirst {
    pub size: i64,
}

impl SortKey for LargestFirst {
    open spec fn le(&self, other: &Self) -> bool {
        self.size >= other.size
    }

    proof fn le_total(a: &Self, b: &Self) {
    }

    proof fn le_transitive(a: &Self, b: &Self, c: &Self) {
    }

    fn may_precede(&self, other: &Self) -> (b: bool) {
        self.size >= other.size
    }
}

/// Sorts text in dictionary order by code point.
pub struct Alphabetical {
    pub chars: Vec<char>,
}

impl SortKey for Alphabetical {
    open spec fn le(&self, other: &Self) -> bool {
        crate::text::text_le(self.chars@, other.chars@)
    }

    proof fn le_total(a: &Self, b: &Self) {
        lemma_text_le_total(a.chars@, b.chars@);
    }

    proof fn le_transitive(a: &Self, b: &Self, c: &Self) {
        lemma_text_le_transitive(a.chars@, b.chars@, c.chars@);
    }

    fn may_precede(&self, other: &Self) -> (b: bool) {
        chars_le(&self.chars, &other.chars)
    }
}

/// Position `i` goes before position `j`: its key is smaller, or equal and it stood earlier.
pub open spec fn goes_before<K: SortKey>(keys: Seq<K>, i: int, j: int) -> bool {
    &&& keys[i].le(&keys[j])
    &&& keys[j].le(&keys[i]) ==> i < j
}

/// `order` lists the positions from `lo` to `hi` and nothing else.
pub open spec fn covers(order: Seq<usize>, lo: int, hi: int) -> bool {
    &&& order.len() == hi - lo
    &&& forall|p: int| 0 <= p < order.len() ==> lo <= #[trigger] order[p] < hi
    &&& forall|i: int| lo <= i < hi ==> #[trigger] order.contains(i as usize)
}

/// Each position in `order` goes before all that follow it.
pub open spec fn ascending<K: SortKey>(keys: Seq<K>, order: Seq<usize>) -> bool {
    forall|p: int, q: int|
        0 <= p < q < order.len() ==> goes_before(
            keys,
            #[trigger] order[p] as int,
            #[trigger] order[q] as int,
        )
}

/// `order` is the stable order of `keys`. There is only one: see [`lemma_order_unique`].
pub open spec fn stable_order<K: SortKey>(keys: Seq<K>, order: Seq<usize>) -> bool {
    &&& covers(order, 0, keys.len() as int)
    &&& ascending(keys, order)
}

pub proof fn lemma_goes_before_total<K: SortKey>(keys: Seq<K>, i: int, j: int)
    requires
        i != j,
    ensures
        goes_before(keys, i, j) != goes_before(keys, j, i),
{
    K::le_total(&keys[i], &keys[j]);
}

pub proof fn lemma_goes_before_transitive<K: SortKey>(keys: Seq<K>, i: int, j: int, k: int)
    requires
        goes_before(keys, i, j),
        goes_before(keys, j, k),
    ensures
        goes_before(keys, i, k),
{
    K::le_transitive(&keys[i], &keys[j], &keys[k]);
    if keys[k].le(&keys[i]) {
        K::le_transitive(&keys[j], &keys[k], &keys[i]);
        K::le_transitive(&keys[k], &keys[i], &keys[j]);
    }
}

/// Two lists of the same positions that follow one strict relation are the same list.
pub proof fn lemma_order_unique(
    n: int,
    before: spec_fn(int, int) -> bool,
    a: Seq<usize>,
    b: Seq<usize>,
)
    requires
        covers(a, 0, n),
        covers(b, 0, n),
        forall|p: int, q: int|
            0 <= p < q < a.len() ==> before(#[trigger] a[p] as int, #[trigger] a[q] as int),
        forall|p: int, q: int|
            0 <= p < q < b.len() ==> before(#[trigger] b[p] as int, #[trigger] b[q] as int),
        forall|x: int, y: int| !(#[trigger] before(x, y) && before(y, x)),
    ensures
        a == b,
{
    assert forall|p: int| 0 <= p < a.len() implies a[p] == b[p] by {
        lemma_same_at(n, before, a, b, p);
    }
    assert(a =~= b);
}

proof fn lemma_same_at(
    n: int,
    before: spec_fn(int, int) -> bool,
    a: Seq<usize>,
    b: Seq<usize>,
    p: int,
)
    requires
        covers(a, 0, n),
        covers(b, 0, n),
        forall|p: int, q: int|
            0 <= p < q < a.len() ==> before(#[trigger] a[p] as int, #[trigger] a[q] as int),
        forall|p: int, q: int|
            0 <= p < q < b.len() ==> before(#[trigger] b[p] as int, #[trigger] b[q] as int),
        forall|x: int, y: int| !(#[trigger] before(x, y) && before(y, x)),
        0 <= p < a.len(),
    ensures
        a[p] == b[p],
    decreases p,
{
    if a[p] != b[p] {
        let x = a[p];
        let y = b[p];
        assert(b.contains(x as int as usize));
        assert(a.contains(y as int as usize));
        let q = choose|q: int| 0 <= q < b.len() && b[q] == x;
        let r = choose|r: int| 0 <= r < a.len() && a[r] == y;
        if q < p {
            lemma_same_at(n, before, a, b, q);
            assert(before(a[q] as int, a[p] as int));
        }
        if r < p {
            lemma_same_at(n, before, a, b, r);
            assert(before(b[r] as int, b[p] as int));
        }
        assert(before(a[p] as int, a[r] as int));
        assert(before(b[p] as int, b[q] as int));
    }
}

/// The stable order of `keys`.
pub fn sorted_order<K: SortKey>(keys: &Vec<K>) -> (order: Vec<usize>)
    ensures
        stable_order(keys@, order@),
{
    sort_range(keys, 0, keys.len())
}

fn sort_range<K: SortKey>(keys: &Vec<K>, lo: usize, hi: usize) -> (order: Vec<usize>)
    requires
        lo <= hi <= keys@.len(),
    ensures
        covers(order@, lo as int, hi as int),
        ascending(keys@, order@),
    decreases hi - lo,
{
    if hi - lo <= 1 {
        let mut order: Vec<usize> = Vec::new();
        if lo < hi {
            order.push(lo);
            assert(order@[0] == lo);
        }
        return order;
    }
    let mid: usize = lo + (hi - lo) / 2;
    let left = sort_range(keys, lo, mid);
    let right = sort_range(keys, mid, hi);
    merge(keys, &left, &right, lo, mid, hi)
}

fn merge<K: SortKey>(
    keys: &Vec<K>,
    left: &Vec<usize>,
    right: &Vec<usize>,
    lo: usize,
    mid: usize,
    hi: usize,
) -> (order: Vec<usize>)
    requires
        lo <= mid <= hi <= keys@.len(),
        covers(left@, lo as int, mid as int),
        covers(right@, mid as int, hi as int),
        ascending(keys@, left@),
        ascending(keys@, right@),
    ensures
        covers(order@, lo as int, hi as int),
        ascending(keys@, order@),
{
    let mut order: Vec<usize> = Vec::new();
    let mut l: usize = 0;
    let mut r: usize = 0;
    while l < left.len() || r < right.len()
        invariant
            lo <= mid <= hi <= keys@.len(),
            covers(left@, lo as int, mid as int),
            covers(right@, mid as int, hi as int),
            ascending(keys@, left@),
            ascending(keys@, right@),
            l <= left@.len(),
            r <= right@.len(),
            order@.len() == l + r,
            ascending(keys@, order@),
            forall|p: int| 0 <= p < order@.len() ==> lo <= #[trigger] order@[p] < hi,
            forall|k: int| 0 <= k < l ==> order@.contains(#[trigger] left@[k]),
            forall|k: int| 0 <= k < r ==> order@.contains(#[trigger] right@[k]),
            l < left@.len() ==> forall|p: int|
                0 <= p < order@.len() ==> goes_before(
                    keys@,
                    #[trigger] order@[p] as int,
                    left@[l as int] as int,
                ),
            r < right@.len() ==> forall|p: int|
                0 <= p < order@.len() ==> goes_before(
                    keys@,
                    #[trigger] order@[p] as int,
                    right@[r as int] as int,
                ),
        decreases left@.len() - l + right@.len() - r,
    {
        let from_left = r >= right.len() || (l < left.len() && keys[left[l]].may_precede(
            &keys[right[r]],
        ));
        let ghost before = order@;
        let ghost taken: usize = if from_left { left@[l as int] } else { right@[r as int] };
        proof {
            let other: usize = if from_left { right@[r as int] } else { left@[l as int] };
            if l < left@.len() && r < right@.len() {
                lemma_goes_before_total(keys@, taken as int, other as int);
                assert(goes_before(keys@, taken as int, other as int));
            }
        }
        if from_left {
            order.push(left[l]);
            proof {
                if l + 1 < left@.len() {
                    assert forall|p: int| 0 <= p < order@.len() implies goes_before(
                        keys@,
                        #[trigger] order@[p] as int,
                        left@[l + 1] as int,
                    ) by {
                        assert(goes_before(keys@, left@[l as int] as int, left@[l + 1] as int));
                        if p < before.len() {
                            assert(order@[p] == before[p]);
                            lemma_goes_before_transitive(
                                keys@,
                                order@[p] as int,
                                left@[l as int] as int,
                                left@[l + 1] as int,
                            );
                        }
                    }
                }
            }
            l += 1;
        } else {
            order.push(right[r]);
            proof {
                if r + 1 < right@.len() {
                    assert forall|p: int| 0 <= p < order@.len() implies goes_before(
                        keys@,
                        #[trigger] order@[p] as int,
                        right@[r + 1] as int,
                    ) by {
                        assert(goes_before(keys@, right@[r as int] as int, right@[r + 1] as int));
                        if p < before.len() {
                            assert(order@[p] == before[p]);
                            lemma_goes_before_transitive(
                                keys@,
                                order@[p] as int,
                                right@[r as int] as int,
                                right@[r + 1] as int,
                            );
                        }
                    }
                }
            }
            r += 1;
        }
        assert(order@ == before.push(taken));
        assert(order@[before.len() as int] == taken);
        assert forall|x: usize| before.contains(x) implies order@.contains(x) by {
            let k = choose|k: int| 0 <= k < before.len() && before[k] == x;
            assert(order@[k] == x);
        }
        assert forall|p: int, q: int| 0 <= p < q < order@.len() implies goes_before(
            keys@,
            #[trigger] order@[p] as int,
            #[trigger] order@[q] as int,
        ) by {
            if q < before.len() {
                assert(before[p] == order@[p] && before[q] == order@[q]);
            } else {
                assert(before[p] == order@[p]);
            }
        }
        assert forall|p: int| 0 <= p < order@.len() implies lo <= #[trigger] order@[p] < hi by {
            if p < before.len() {
                assert(before[p] == order@[p]);
            }
        }
        proof {
            if l < left@.len() {
                assert forall|p: int| 0 <= p < order@.len() implies goes_before(
                    keys@,
                    #[trigger] order@[p] as int,
                    left@[l as int] as int,
                ) by {
                    if p < before.len() {
                        assert(before[p] == order@[p]);
                    }
                }
            }
            if r < right@.len() {
                assert forall|p: int| 0 <= p < order@.len() implies goes_before(
                    keys@,
                    #[trigger] order@[p] as int,
                    right@[r as int] as int,
                ) by {
                    if p < before.len() {
                        assert(before[p] == order@[p]);
                    }
                }
            }
        }
    }
    assert forall|i: int| lo <= i < hi implies #[trigger] order@.contains(i as usize) by {
        if i < mid {
            assert(left@.contains(i as usize));
            let k = choose|k: int| 0 <= k < left@.len() && left@[k] == i as usize;
            assert(order@.contains(left@[k]));
        } else {
            assert(right@.contains(i as usize));
            let k = choose|k: int| 0 <= k < right@.len() && right@[k] == i as usize;
            assert(order@.contains(right@[k]));
        }
    }
    order
}

} // verus!
