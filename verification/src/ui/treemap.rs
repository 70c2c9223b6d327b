//! The layout of a treemap, row by row.
//!
//! How well a row is shaped, how thick it is and how far each of its items reaches are ratios of
//! sizes. They are worked out outside and handed in; which items make a row and where everything
//! goes is decided here.
use vstd::prelude::*;

use crate::sort::{goes_before, sorted_order, stable_order, LargestFirst};

verus! {

/// A row is closed after so many items.
pub const ROW_LIMIT: usize = 11;

/// A rectangle of terminal cells.
#[derive(Debug, Clone, Copy, PartialEq, Eq, Structural)]
pub struct Area {
    pub x: u16,
    pub y: u16,
    pub width: u16,
    pub height: u16,
}

/// A rectangle for the entry with this number.
#[derive(Debug, Clone, Copy, PartialEq, Eq, Structural)]
pub struct TreemapRect {
    pub entry: usize,
    pub rect: Area,
    pub color_index: usize,
}

/// A treemap that is being laid out: the entries from the largest down, how many are placed, and
/// the area that is left.
pub struct Treemap {
    pub order: Vec<usize>,
    pub placed: usize,
    pub area: Area,
    pub depth: usize,
}

/// A row: its thickness, and how far each of its items reaches.
pub ghost struct Row {
    pub thickness: u16,
    pub extents: Seq<u16>,
}

/// The sum of the first `n` sizes.
pub open spec fn sum_to(sizes: Seq<i64>, n: nat) -> int
    decreases n,
{
    if n == 0 {
        0
    } else {
        sum_to(sizes, (n - 1) as nat) + sizes[n - 1]
    }
}

/// The sum of the positive ones among the first `n` sizes.
pub open spec fn gains(sizes: Seq<i64>, n: nat) -> int
    decreases n,
{
    if n == 0 {
        0
    } else {
        gains(sizes, (n - 1) as nat) + if sizes[n - 1] > 0 {
            sizes[n - 1] as int
        } else {
            0
        }
    }
}

/// The sizes can be added up in any order.
pub open spec fn addable(sizes: Seq<i64>) -> bool {
    &&& gains(sizes, sizes.len()) <= i64::MAX
    &&& sum_to(sizes, sizes.len()) - gains(sizes, sizes.len()) >= i64::MIN
}

/// The keys by which entries are put in order: the largest first.
pub open spec fn size_keys(sizes: Seq<i64>) -> Seq<LargestFirst> {
    Seq::new(sizes.len(), |i: int| LargestFirst { size: sizes[i] })
}

proof fn lemma_sums_bounded(sizes: Seq<i64>, n: nat)
    requires
        n <= sizes.len(),
    ensures
        0 <= gains(sizes, n) <= gains(sizes, sizes.len()),
        sum_to(sizes, sizes.len()) - gains(sizes, sizes.len()) <= sum_to(sizes, n) - gains(
            sizes,
            n,
        ) <= 0,
    decreases sizes.len() - n,
{
    lemma_gains_sign(sizes, n);
    if n < sizes.len() {
        lemma_sums_bounded(sizes, n + 1);
    }
}

proof fn lemma_gains_sign(sizes: Seq<i64>, n: nat)
    requires
        n <= sizes.len(),
    ensures
        0 <= gains(sizes, n),
        sum_to(sizes, n) - gains(sizes, n) <= 0,
    decreases n,
{
    if n > 0 {
        lemma_gains_sign(sizes, (n - 1) as nat);
    }
}

/// The sum of the sizes at these places.
pub open spec fn sum_at(sizes: Seq<i64>, places: Seq<usize>) -> int
    decreases places.len(),
{
    if places.len() == 0 {
        0
    } else {
        sizes[places[0] as int] + sum_at(sizes, places.skip(1))
    }
}

/// The sum of the positive ones among the sizes at these places.
spec fn gains_at(sizes: Seq<i64>, places: Seq<usize>) -> int
    decreases places.len(),
{
    if places.len() == 0 {
        0
    } else {
        gains_at(sizes, places.skip(1)) + if sizes[places[0] as int] > 0 {
            sizes[places[0] as int] as int
        } else {
            0
        }
    }
}

proof fn lemma_place_removed(sizes: Seq<i64>, places: Seq<usize>, j: int)
    requires
        0 <= j < places.len(),
    ensures
        sum_at(sizes, places) == sum_at(sizes, places.remove(j)) + sizes[places[j] as int],
        gains_at(sizes, places) == gains_at(sizes, places.remove(j)) + if sizes[places[j] as int]
            > 0 {
            sizes[places[j] as int] as int
        } else {
            0
        },
    decreases places.len(),
{
    if j == 0 {
        assert(places.remove(0) =~= places.skip(1));
    } else {
        lemma_place_removed(sizes, places.skip(1), j - 1);
        assert(places.remove(j).skip(1) =~= places.skip(1).remove(j - 1));
        assert(places.remove(j)[0] == places[0]);
    }
}

/// The sizes at some of the first `n` places, each taken once, gain and lose no more than all of
/// them; at all of these places they come to the same sum.
proof fn lemma_sum_at(sizes: Seq<i64>, places: Seq<usize>, n: nat)
    requires
        n <= sizes.len(),
        n <= usize::MAX,
        places.no_duplicates(),
        forall|p: int| 0 <= p < places.len() ==> (#[trigger] places[p]) < n,
    ensures
        0 <= gains_at(sizes, places) <= gains(sizes, n),
        sum_to(sizes, n) - gains(sizes, n) <= sum_at(sizes, places) - gains_at(sizes, places) <= 0,
        (forall|i: int| 0 <= i < n ==> #[trigger] places.contains(i as usize)) ==> sum_at(
            sizes,
            places,
        ) == sum_to(sizes, n),
    decreases n,
{
    if n == 0 {
        assert(places.len() == 0) by {
            if places.len() > 0 {
                assert(places[0] < 0);
            }
        }
    } else {
        let last = (n - 1) as usize;
        if places.contains(last) {
            let j = choose|j: int| 0 <= j < places.len() && places[j] == last;
            let rest = places.remove(j);
            lemma_place_removed(sizes, places, j);
            assert(rest.no_duplicates()) by {
                assert forall|a: int, b: int|
                    0 <= a < rest.len() && 0 <= b < rest.len() && a != b implies rest[a]
                    != rest[b] by {
                    let a0 = if a < j {
                        a
                    } else {
                        a + 1
                    };
                    let b0 = if b < j {
                        b
                    } else {
                        b + 1
                    };
                    assert(rest[a] == places[a0] && rest[b] == places[b0]);
                }
            }
            assert forall|p: int| 0 <= p < rest.len() implies (#[trigger] rest[p]) < n - 1 by {
                let q = if p < j {
                    p
                } else {
                    p + 1
                };
                assert(rest[p] == places[q]);
                assert(places[q] != places[j]);
            }
            lemma_sum_at(sizes, rest, (n - 1) as nat);
            if forall|i: int| 0 <= i < n ==> #[trigger] places.contains(i as usize) {
                assert forall|i: int| 0 <= i < n - 1 implies #[trigger] rest.contains(
                    i as usize,
                ) by {
                    assert(places.contains(i as usize));
                    let q = choose|q: int| 0 <= q < places.len() && places[q] == i as usize;
                    assert(q != j);
                    assert(rest[if q < j {
                        q
                    } else {
                        q - 1
                    }] == i as usize);
                }
            }
        } else {
            assert forall|p: int| 0 <= p < places.len() implies (#[trigger] places[p]) < n - 1 by {
                assert(places.contains(places[p]));
            }
            lemma_sum_at(sizes, places, (n - 1) as nat);
            assert(!places.contains((n - 1) as usize));
        }
    }
}

/// Whether sizes can be added up in any order.
pub fn can_add(sizes: &Vec<i64>) -> (b: bool)
    ensures
        b == addable(sizes@),
{
    let mut up: i64 = 0;
    let mut down: i64 = 0;
    let mut n: usize = 0;
    while n < sizes.len()
        invariant
            n <= sizes@.len(),
            up == gains(sizes@, n as nat),
            down == sum_to(sizes@, n as nat) - gains(sizes@, n as nat),
        decreases sizes@.len() - n,
    {
        proof {
            lemma_sums_bounded(sizes@, (n + 1) as nat);
        }
        if sizes[n] > 0 {
            match up.checked_add(sizes[n]) {
                Some(s) => {
                    up = s;
                },
                None => {
                    return false;
                },
            }
        } else {
            match down.checked_add(sizes[n]) {
                Some(s) => {
                    down = s;
                },
                None => {
                    return false;
                },
            }
        }
        n = n + 1;
    }
    true
}

/// How many of the first marks hold, up to the first that does not and up to the limit.
pub open spec fn run_length(improves: Seq<bool>, n: nat) -> nat
    decreases n,
{
    if n == 0 {
        0
    } else {
        let before = run_length(improves, (n - 1) as nat);
        if before == n - 1 && improves[n - 1] {
            n
        } else {
            before
        }
    }
}

/// How many items make the next row, given for the first items whether each improves the shape of
/// the row: those up to the first that does not, at most [`ROW_LIMIT`], and at least one.
pub fn row_length(improves: &Vec<bool>) -> (n: usize)
    ensures
        n == {
            let limit = if improves@.len() < ROW_LIMIT {
                improves@.len()
            } else {
                ROW_LIMIT as nat
            };
            if run_length(improves@, limit) == 0 {
                1
            } else {
                run_length(improves@, limit)
            }
        },
        1 <= n <= ROW_LIMIT,
{
    let mut n: usize = 0;
    let limit: usize = if improves.len() < ROW_LIMIT {
        improves.len()
    } else {
        ROW_LIMIT
    };
    while n < limit && improves[n]
        invariant
            n <= limit <= improves@.len(),
            run_length(improves@, n as nat) == n,
        decreases limit - n,
    {
        n = n + 1;
    }
    proof {
        lemma_run_stops(improves@, n as nat, limit as nat);
    }
    if n == 0 {
        1
    } else {
        n
    }
}

proof fn lemma_run_stops(improves: Seq<bool>, n: nat, limit: nat)
    requires
        n <= limit <= improves.len(),
        run_length(improves, n) == n,
        n < limit ==> !improves[n as int],
    ensures
        run_length(improves, limit) == n,
    decreases limit,
{
    if n < limit {
        lemma_run_stops(improves, n, (limit - 1) as nat);
    }
}

/// How far the first `n` items of a row reach.
pub open spec fn reach(extents: Seq<u16>, n: nat) -> nat
    decreases n,
{
    if n == 0 {
        0
    } else {
        reach(extents, (n - 1) as nat) + extents[n - 1] as nat
    }
}

impl Area {
    /// Whether rows are columns here: the area is at least as wide as it is high.
    pub open spec fn sideways(self) -> bool {
        self.width >= self.height
    }

    /// How far the items of a row may reach.
    pub open spec fn breadth(self) -> nat {
        if self.sideways() {
            self.height as nat
        } else {
            self.width as nat
        }
    }

    /// The area that a row of this thickness leaves.
    pub open spec fn after_row(self, thickness: u16) -> Area {
        if self.sideways() {
            Area {
                x: (self.x + thickness) as u16,
                width: if thickness <= self.width {
                    (self.width - thickness) as u16
                } else {
                    0
                },
                ..self
            }
        } else {
            Area {
                y: (self.y + thickness) as u16,
                height: if thickness <= self.height {
                    (self.height - thickness) as u16
                } else {
                    0
                },
                ..self
            }
        }
    }

    /// Where an item goes in a row, with what reaches before it.
    pub open spec fn item_rect(self, thickness: u16, offset: nat, extent: u16) -> Area {
        let room = self.breadth() - offset;
        let long = if extent <= room {
            extent
        } else {
            room as u16
        };
        if self.sideways() {
            Area {
                x: self.x,
                y: (self.y + offset) as u16,
                width: if thickness <= self.width {
                    thickness
                } else {
                    self.width
                },
                height: long,
            }
        } else {
            Area {
                x: (self.x + offset) as u16,
                y: self.y,
                width: long,
                height: if thickness <= self.height {
                    thickness
                } else {
                    self.height
                },
            }
        }
    }

    /// Whether a row can be placed: no item starts beyond the area, and every place has a number.
    pub open spec fn row_fits(self, thickness: u16, extents: Seq<u16>) -> bool {
        &&& extents.len() > 0
        &&& reach(extents, (extents.len() - 1) as nat) <= self.breadth()
        &&& reach(extents, extents.len()) <= u16::MAX
        &&& if self.sideways() {
            self.x + thickness <= u16::MAX && self.y + self.breadth() <= u16::MAX
        } else {
            self.y + thickness <= u16::MAX && self.x + self.breadth() <= u16::MAX
        }
    }

    /// Whether the other area lies in this one.
    pub open spec fn holds(self, other: Area) -> bool {
        &&& self.x <= other.x
        &&& self.y <= other.y
        &&& other.x + other.width <= self.x + self.width
        &&& other.y + other.height <= self.y + self.height
    }

    /// Whether the two areas have no cell in common.
    pub open spec fn apart(self, other: Area) -> bool {
        ||| self.x + self.width <= other.x
        ||| other.x + other.width <= self.x
        ||| self.y + self.height <= other.y
        ||| other.y + other.height <= self.y
    }

    /// Whether the area has any cell.
    pub open spec fn some(self) -> bool {
        self.width > 0 && self.height > 0
    }
}

proof fn lemma_reach_grows(extents: Seq<u16>, n: nat, m: nat)
    requires
        n <= m <= extents.len(),
    ensures
        reach(extents, n) <= reach(extents, m),
    decreases m - n,
{
    if n < m {
        lemma_reach_grows(extents, n, (m - 1) as nat);
    }
}

/// Whether a row can be placed in the area.
pub fn can_place(area: Area, thickness: u16, extents: &Vec<u16>) -> (b: bool)
    ensures
        b == area.row_fits(thickness, extents@),
{
    if extents.len() == 0 {
        return false;
    }
    let sideways = area.width >= area.height;
    let breadth: u16 = if sideways {
        area.height
    } else {
        area.width
    };
    let mut sum: u64 = 0;
    let mut n: usize = 0;
    let mut ok = true;
    while n < extents.len()
        invariant
            n <= extents@.len(),
            extents@.len() > 0,
            ok ==> sum == reach(extents@, n as nat),
            ok ==> sum <= u16::MAX,
            ok ==> n > 0 ==> reach(extents@, (n - 1) as nat) <= breadth,
            !ok ==> !(reach(extents@, (extents@.len() - 1) as nat) <= breadth && reach(
                extents@,
                extents@.len(),
            ) <= u16::MAX),
        decreases extents@.len() - n,
    {
        if ok {
            proof {
                lemma_reach_grows(extents@, n as nat, (extents@.len() - 1) as nat);
                lemma_reach_grows(extents@, (n + 1) as nat, extents@.len());
            }
            if sum > breadth as u64 {
                ok = false;
            } else {
                sum = sum + extents[n] as u64;
                if sum > 65535 {
                    ok = false;
                }
            }
        }
        n = n + 1;
    }
    ok && if sideways {
        area.x as u32 + thickness as u32 <= 65535 && area.y as u32 + breadth as u32 <= 65535
    } else {
        area.y as u32 + thickness as u32 <= 65535 && area.x as u32 + breadth as u32 <= 65535
    }
}

/// The rectangles of the first `n` items of a row, as far as they have any cell.
pub open spec fn row_rects(
    map: Treemap,
    thickness: u16,
    extents: Seq<u16>,
    n: nat,
) -> Seq<TreemapRect>
    decreases n,
{
    if n == 0 {
        Seq::empty()
    } else {
        let before = row_rects(map, thickness, extents, (n - 1) as nat);
        let rect = map.area.item_rect(thickness, reach(extents, (n - 1) as nat), extents[n - 1]);
        if rect.some() {
            before.push(
                TreemapRect {
                    entry: map.order@[map.placed + n - 1],
                    rect,
                    color_index: (map.depth % 8) as usize,
                },
            )
        } else {
            before
        }
    }
}

impl Treemap {
    /// No entry is listed twice, and no more are placed than there are.
    pub open spec fn well_formed(&self) -> bool {
        &&& self.order@.no_duplicates()
        &&& self.placed <= self.order@.len()
    }

    /// Every entry has one of the sizes.
    pub open spec fn measured_by(&self, sizes: Seq<i64>) -> bool {
        forall|p: int| 0 <= p < self.order@.len() ==> (#[trigger] self.order@[p]) < sizes.len()
    }

    /// The sum of the sizes of the entries that are still to be placed.
    pub open spec fn to_place(&self, sizes: Seq<i64>) -> int {
        sum_at(sizes, self.order@.skip(self.placed as int))
    }

    /// The treemap after a row was placed.
    pub open spec fn after(self, row: Row) -> Treemap {
        Treemap {
            placed: (self.placed + row.extents.len()) as usize,
            area: self.area.after_row(row.thickness),
            ..self
        }
    }

    /// Whether a row can be placed: there are so many entries left, and it fits in the area.
    pub open spec fn takes(self, row: Row) -> bool {
        &&& self.placed + row.extents.len() <= self.order@.len()
        &&& self.area.row_fits(row.thickness, row.extents)
    }

    /// Starts to lay entries with these sizes out. Where there are none, or no room, or nothing in
    /// them, there is nothing to lay out.
    pub fn start(sizes: &Vec<i64>, area: Area, depth: usize) -> (map: Option<Treemap>)
        requires
            addable(sizes@),
        ensures
            map is Some <==> sizes@.len() > 0 && area.some() && sum_to(sizes@, sizes@.len()) != 0,
            map is Some ==> {
                &&& map->0.well_formed()
                &&& stable_order(size_keys(sizes@), map->0.order@)
                &&& map->0.measured_by(sizes@)
                &&& map->0.to_place(sizes@) == sum_to(sizes@, sizes@.len())
                &&& map->0.placed == 0
                &&& map->0.area == area
                &&& map->0.depth == depth
            },
    {
        if sizes.len() == 0 || area.width == 0 || area.height == 0 {
            return None;
        }
        let mut keys: Vec<LargestFirst> = Vec::new();
        let mut total: i64 = 0;
        let mut n: usize = 0;
        while n < sizes.len()
            invariant
                n <= sizes@.len(),
                addable(sizes@),
                keys@.len() == n,
                forall|i: int| 0 <= i < n ==> (#[trigger] keys@[i]).size == sizes@[i],
                total == sum_to(sizes@, n as nat),
            decreases sizes@.len() - n,
        {
            proof {
                lemma_sums_bounded(sizes@, (n + 1) as nat);
            }
            total = total + sizes[n];
            keys.push(LargestFirst { size: sizes[n] });
            n = n + 1;
        }
        if total == 0 {
            return None;
        }
        assert(keys@ =~= size_keys(sizes@));
        let order = sorted_order(&keys);
        assert(order@.no_duplicates()) by {
            assert forall|p: int, q: int|
                0 <= p < order@.len() && 0 <= q < order@.len() && p != q implies order@[p]
                != order@[q] by {
                if p < q {
                    assert(goes_before(keys@, order@[p] as int, order@[q] as int));
                } else {
                    assert(goes_before(keys@, order@[q] as int, order@[p] as int));
                }
            }
        }
        proof {
            assert(sizes@.len() == sizes.len());
            lemma_sum_at(sizes@, order@, sizes@.len());
            assert(order@.skip(0) =~= order@);
        }
        Some(Treemap { order, placed: 0, area, depth })
    }

    /// Whether every entry is placed.
    pub fn is_done(&self) -> (b: bool)
        requires
            self.well_formed(),
        ensures
            b <==> self.placed == self.order@.len(),
    {
        self.placed >= self.order.len()
    }

    /// The sum of the sizes of the entries that are still to be placed.
    pub fn left(&self, sizes: &Vec<i64>) -> (n: i64)
        requires
            self.well_formed(),
            self.measured_by(sizes@),
            addable(sizes@),
        ensures
            n == self.to_place(sizes@),
    {
        let ghost order = self.order@;
        let mut n: i64 = 0;
        let mut i: usize = self.order.len();
        assert(order.skip(i as int) =~= Seq::empty());
        while i > self.placed
            invariant
                self.well_formed(),
                self.measured_by(sizes@),
                addable(sizes@),
                order == self.order@,
                self.placed <= i <= order.len(),
                n == sum_at(sizes@, order.skip(i as int)),
            decreases i,
        {
            i = i - 1;
            proof {
                let rest = order.skip(i as int);
                assert(rest.skip(1) =~= order.skip(i + 1));
                assert(rest[0] == order[i as int]);
                assert forall|p: int| 0 <= p < rest.len() implies (#[trigger] rest[p])
                    < sizes@.len() by {
                    assert(rest[p] == order[i + p]);
                }
                assert forall|a: int, b: int|
                    0 <= a < rest.len() && 0 <= b < rest.len() && a != b implies rest[a]
                    != rest[b] by {
                    assert(rest[a] == order[i + a] && rest[b] == order[i + b]);
                }
                assert(sizes@.len() == sizes.len());
                lemma_sum_at(sizes@, rest, sizes@.len());
            }
            n = n + sizes[self.order[i]];
        }
        n
    }

    /// Places the next row: its rectangles, as far as they have any cell. The area shrinks by the
    /// row.
    pub fn place_row(&mut self, thickness: u16, extents: &Vec<u16>) -> (rects: Vec<TreemapRect>)
        requires
            old(self).well_formed(),
            old(self).takes(Row { thickness, extents: extents@ }),
        ensures
            final(self).well_formed(),
            *final(self) == old(self).after(Row { thickness, extents: extents@ }),
            rects@ == row_rects(*old(self), thickness, extents@, extents@.len()),
    {
        let count: usize = self.order.len();
        let area = self.area;
        let sideways = area.width >= area.height;
        let thick: u16 = if sideways {
            if thickness <= area.width {
                thickness
            } else {
                area.width
            }
        } else {
            if thickness <= area.height {
                thickness
            } else {
                area.height
            }
        };
        let mut rects: Vec<TreemapRect> = Vec::new();
        let mut offset: u16 = 0;
        let mut n: usize = 0;
        while n < extents.len()
            invariant
                n <= extents@.len(),
                *self == *old(self),
                count == self.order@.len(),
                area == self.area,
                sideways == area.sideways(),
                thick == if sideways {
                    if thickness <= area.width {
                        thickness
                    } else {
                        area.width
                    }
                } else {
                    if thickness <= area.height {
                        thickness
                    } else {
                        area.height
                    }
                },
                self.placed + extents@.len() <= self.order@.len(),
                area.row_fits(thickness, extents@),
                offset == reach(extents@, n as nat),
                rects@ == row_rects(*self, thickness, extents@, n as nat),
            decreases extents@.len() - n,
        {
            proof {
                lemma_reach_grows(extents@, n as nat, (extents@.len() - 1) as nat);
                lemma_reach_grows(extents@, (n + 1) as nat, extents@.len());
            }
            let room: u16 = if sideways {
                area.height - offset
            } else {
                area.width - offset
            };
            let extent: u16 = extents[n];
            let long: u16 = if extent <= room {
                extent
            } else {
                room
            };
            let rect = if sideways {
                Area { x: area.x, y: area.y + offset, width: thick, height: long }
            } else {
                Area { x: area.x + offset, y: area.y, width: long, height: thick }
            };
            assert(rect == area.item_rect(thickness, offset as nat, extent));
            if rect.width > 0 && rect.height > 0 {
                rects.push(
                    TreemapRect {
                        entry: self.order[self.placed + n],
                        rect,
                        color_index: self.depth % 8,
                    },
                );
            }
            offset = offset + extent;
            n = n + 1;
        }
        self.placed = self.placed + extents.len();
        if sideways {
            self.area.x = area.x + thickness;
            self.area.width = area.width.saturating_sub(thickness);
        } else {
            self.area.y = area.y + thickness;
            self.area.height = area.height.saturating_sub(thickness);
        }
        rects
    }
}

/// The rectangles of a row lie in the area, have no cell in common with each other, and none with
/// what the row leaves; and what it leaves, where that has any cell, lies in the area too.
pub proof fn law_row_in_area(map: Treemap, thickness: u16, extents: Seq<u16>, n: nat)
    requires
        n <= extents.len(),
        map.area.row_fits(thickness, extents),
    ensures
        forall|i: int|
            0 <= i < row_rects(map, thickness, extents, n).len() ==> {
                let r = (#[trigger] row_rects(map, thickness, extents, n)[i]).rect;
                &&& map.area.holds(r)
                &&& r.apart(map.area.after_row(thickness))
            },
        forall|i: int, j: int|
            0 <= i < j < row_rects(map, thickness, extents, n).len() ==> (#[trigger] row_rects(
                map,
                thickness,
                extents,
                n,
            )[i]).rect.apart((#[trigger] row_rects(map, thickness, extents, n)[j]).rect),
        map.area.after_row(thickness).some() ==> map.area.holds(map.area.after_row(thickness)),
    decreases n,
{
    lemma_row_ends(map, thickness, extents, n);
    if n > 0 {
        law_row_in_area(map, thickness, extents, (n - 1) as nat);
        lemma_row_ends(map, thickness, extents, (n - 1) as nat);
        lemma_reach_grows(extents, (n - 1) as nat, (extents.len() - 1) as nat);
        let before = row_rects(map, thickness, extents, (n - 1) as nat);
        let all = row_rects(map, thickness, extents, n);
        let rect = map.area.item_rect(thickness, reach(extents, (n - 1) as nat), extents[n - 1]);
        assert forall|i: int| 0 <= i < all.len() implies {
            let r = (#[trigger] all[i]).rect;
            &&& map.area.holds(r)
            &&& r.apart(map.area.after_row(thickness))
        } by {
            if i < before.len() {
                assert(all[i] == before[i]);
            }
        }
        assert forall|i: int, j: int| 0 <= i < j < all.len() implies (
        #[trigger] all[i]).rect.apart((#[trigger] all[j]).rect) by {
            if j < before.len() {
                assert(all[i] == before[i] && all[j] == before[j]);
            } else {
                assert(all[i] == before[i]);
            }
        }
    }
}

proof fn lemma_row_ends(map: Treemap, thickness: u16, extents: Seq<u16>, n: nat)
    requires
        n <= extents.len(),
        map.area.row_fits(thickness, extents),
    ensures
        forall|i: int|
            0 <= i < row_rects(map, thickness, extents, n).len() ==> {
                let r = (#[trigger] row_rects(map, thickness, extents, n)[i]).rect;
                if map.area.sideways() {
                    r.y + r.height <= map.area.y + reach(extents, n)
                } else {
                    r.x + r.width <= map.area.x + reach(extents, n)
                }
            },
    decreases n,
{
    if n > 0 {
        lemma_row_ends(map, thickness, extents, (n - 1) as nat);
        lemma_reach_grows(extents, (n - 1) as nat, (extents.len() - 1) as nat);
        let before = row_rects(map, thickness, extents, (n - 1) as nat);
        let all = row_rects(map, thickness, extents, n);
        assert forall|i: int| 0 <= i < all.len() implies {
            let r = (#[trigger] all[i]).rect;
            if map.area.sideways() {
                r.y + r.height <= map.area.y + reach(extents, n)
            } else {
                r.x + r.width <= map.area.x + reach(extents, n)
            }
        } by {
            if i < before.len() {
                assert(all[i] == before[i]);
            }
        }
    }
}

/// Whether some rows can be placed, one after the other.
pub open spec fn rows_fit(map: Treemap, rows: Seq<Row>) -> bool
    decreases rows.len(),
{
    rows.len() == 0 || (map.takes(rows[0]) && rows_fit(map.after(rows[0]), rows.skip(1)))
}

/// The rectangles of some rows, placed one after the other.
pub open spec fn rects_of(map: Treemap, rows: Seq<Row>) -> Seq<TreemapRect>
    decreases rows.len(),
{
    if rows.len() == 0 {
        Seq::empty()
    } else {
        row_rects(map, rows[0].thickness, rows[0].extents, rows[0].extents.len()) + rects_of(
            map.after(rows[0]),
            rows.skip(1),
        )
    }
}

/// The rectangles of a row are for entries from the next one on, each for another.
proof fn lemma_row_entries(map: Treemap, thickness: u16, extents: Seq<u16>, n: nat)
    requires
        map.order@.no_duplicates(),
        map.placed + n <= map.order@.len(),
    ensures
        forall|i: int|
            0 <= i < row_rects(map, thickness, extents, n).len() ==> exists|k: int|
                map.placed <= k < map.placed + n && map.order@[k] == (#[trigger] row_rects(
                    map,
                    thickness,
                    extents,
                    n,
                )[i]).entry,
        forall|i: int, j: int|
            0 <= i < j < row_rects(map, thickness, extents, n).len() ==> (#[trigger] row_rects(
                map,
                thickness,
                extents,
                n,
            )[i]).entry != (#[trigger] row_rects(map, thickness, extents, n)[j]).entry,
    decreases n,
{
    if n > 0 {
        lemma_row_entries(map, thickness, extents, (n - 1) as nat);
        let before = row_rects(map, thickness, extents, (n - 1) as nat);
        let all = row_rects(map, thickness, extents, n);
        assert forall|i: int| 0 <= i < all.len() implies exists|k: int|
            map.placed <= k < map.placed + n && map.order@[k] == (#[trigger] all[i]).entry by {
            if i < before.len() {
                assert(all[i] == before[i]);
                let k = choose|k: int|
                    map.placed <= k < map.placed + n - 1 && map.order@[k] == before[i].entry;
                assert(map.order@[k] == all[i].entry);
            } else {
                assert(map.order@[map.placed + n - 1] == all[i].entry);
            }
        }
        assert forall|i: int, j: int| 0 <= i < j < all.len() implies (#[trigger] all[i]).entry
            != (#[trigger] all[j]).entry by {
            assert(all[i] == before[i]);
            if j < before.len() {
                assert(all[j] == before[j]);
            } else {
                let k = choose|k: int|
                    map.placed <= k < map.placed + n - 1 && map.order@[k] == before[i].entry;
                assert(map.order@[map.placed + n - 1] == all[j].entry);
            }
        }
    }
}

/// Where the area has no cell, a row has no rectangle.
proof fn lemma_no_room(map: Treemap, thickness: u16, extents: Seq<u16>, n: nat)
    requires
        !map.area.some(),
        n <= extents.len(),
        map.area.row_fits(thickness, extents),
    ensures
        row_rects(map, thickness, extents, n).len() == 0,
    decreases n,
{
    if n > 0 {
        lemma_no_room(map, thickness, extents, (n - 1) as nat);
        lemma_reach_grows(extents, (n - 1) as nat, (extents.len() - 1) as nat);
    }
}

/// However many rows are placed one after the other, every rectangle has a cell and lies in the
/// first area, no two have a cell in common, and no entry gets two: each is for one of those that
/// were still to be placed.
pub proof fn law_rows_in_area(map: Treemap, rows: Seq<Row>)
    requires
        map.well_formed(),
        rows_fit(map, rows),
    ensures
        forall|i: int|
            0 <= i < rects_of(map, rows).len() ==> {
                let r = #[trigger] rects_of(map, rows)[i];
                &&& r.rect.some()
                &&& map.area.holds(r.rect)
                &&& map.order@.skip(map.placed as int).contains(r.entry)
            },
        forall|i: int, j: int|
            0 <= i < j < rects_of(map, rows).len() ==> {
                let (a, b) = (#[trigger] rects_of(map, rows)[i], #[trigger] rects_of(map, rows)[j]);
                &&& a.rect.apart(b.rect)
                &&& a.entry != b.entry
            },
        !map.area.some() ==> rects_of(map, rows).len() == 0,
    decreases rows.len(),
{
    if rows.len() > 0 {
        let row = rows[0];
        let n = row.extents.len();
        let next = map.after(row);
        let first = row_rects(map, row.thickness, row.extents, n);
        let rest = rects_of(next, rows.skip(1));
        let all = rects_of(map, rows);
        let waiting = map.order@.skip(map.placed as int);
        let later = map.order@.skip(next.placed as int);
        assert(map.order@.len() == map.order.len());
        law_row_in_area(map, row.thickness, row.extents, n);
        lemma_row_entries(map, row.thickness, row.extents, n);
        lemma_rects_have_cells(map, row.thickness, row.extents, n);
        law_rows_in_area(next, rows.skip(1));
        if !map.area.some() {
            lemma_no_room(map, row.thickness, row.extents, n);
        }
        assert forall|i: int| 0 <= i < all.len() implies {
            let r = #[trigger] all[i];
            &&& r.rect.some()
            &&& map.area.holds(r.rect)
            &&& waiting.contains(r.entry)
        } by {
            if i < first.len() {
                assert(all[i] == first[i]);
                let k = choose|k: int|
                    map.placed <= k < map.placed + n && map.order@[k] == first[i].entry;
                assert(waiting[k - map.placed] == all[i].entry);
            } else {
                assert(all[i] == rest[i - first.len()]);
                let k = choose|k: int| 0 <= k < later.len() && later[k] == all[i].entry;
                assert(waiting[k + n] == all[i].entry);
            }
        }
        assert forall|i: int, j: int| 0 <= i < j < all.len() implies {
            let (a, b) = (#[trigger] all[i], #[trigger] all[j]);
            &&& a.rect.apart(b.rect)
            &&& a.entry != b.entry
        } by {
            if j < first.len() {
                assert(all[i] == first[i] && all[j] == first[j]);
            } else if i >= first.len() {
                assert(all[i] == rest[i - first.len()] && all[j] == rest[j - first.len()]);
            } else {
                assert(all[i] == first[i] && all[j] == rest[j - first.len()]);
                assert(next.area.holds(all[j].rect));
                let k = choose|k: int|
                    map.placed <= k < map.placed + n && map.order@[k] == first[i].entry;
                let m = choose|m: int| 0 <= m < later.len() && later[m] == all[j].entry;
                assert(map.order@[next.placed + m] == all[j].entry);
            }
        }
    }
}

proof fn lemma_rects_have_cells(map: Treemap, thickness: u16, extents: Seq<u16>, n: nat)
    ensures
        forall|i: int|
            0 <= i < row_rects(map, thickness, extents, n).len() ==> (#[trigger] row_rects(
                map,
                thickness,
                extents,
                n,
            )[i]).rect.some(),
    decreases n,
{
    if n > 0 {
        lemma_rects_have_cells(map, thickness, extents, (n - 1) as nat);
        let before = row_rects(map, thickness, extents, (n - 1) as nat);
        let all = row_rects(map, thickness, extents, n);
        assert forall|i: int| 0 <= i < all.len() implies (#[trigger] all[i]).rect.some() by {
            if i < before.len() {
                assert(all[i] == before[i]);
            }
        }
    }
}

/// The entries are laid out from the largest down; of two of one size the one that came first.
pub proof fn law_largest_laid_out_first(sizes: Seq<i64>, order: Seq<usize>, p: int, q: int)
    requires
        stable_order(size_keys(sizes), order),
        0 <= p < q < order.len(),
    ensures
        order.len() == sizes.len(),
        sizes[order[p] as int] > sizes[order[q] as int] || (sizes[order[p] as int]
            == sizes[order[q] as int] && order[p] < order[q]),
        forall|i: int| 0 <= i < sizes.len() ==> #[trigger] order.contains(i as usize),
{
    assert(goes_before(size_keys(sizes), order[p] as int, order[q] as int));
    assert(order[p] < sizes.len() && order[q] < sizes.len());
}

/// A row holds the items up to the first that does not improve its shape, but at least one and at
/// most eleven.
pub proof fn law_row_ends_where_it_gets_worse(improves: Seq<bool>, n: nat)
    requires
        n <= improves.len(),
        n <= 11,
    ensures
        run_length(improves, n) <= n,
        forall|i: int| 0 <= i < run_length(improves, n) ==> #[trigger] improves[i],
        run_length(improves, n) < n ==> !improves[run_length(improves, n) as int],
        ROW_LIMIT == 11,
    decreases n,
{
    if n > 0 {
        law_row_ends_where_it_gets_worse(improves, (n - 1) as nat);
    }
}

/// The items of a row stand side by side from a corner of the area on: the first at the corner,
/// each other one where the one before ends. Across, all are as thick as the row, or as the area
/// where that is less.
pub proof fn law_items_side_by_side(area: Area, thickness: u16, extents: Seq<u16>, n: nat)
    requires
        area.row_fits(thickness, extents),
        n < extents.len(),
    ensures
        ({
            let r = area.item_rect(thickness, reach(extents, n), extents[n as int]);
            let thick = if area.width >= area.height {
                area.width
            } else {
                area.height
            };
            let across = if thickness <= thick {
                thickness
            } else {
                thick
            };
            &&& area.width >= area.height ==> r.x == area.x && r.width == across
            &&& area.width < area.height ==> r.y == area.y && r.height == across
            &&& n == 0 ==> r.x == area.x && r.y == area.y
            &&& n > 0 ==> {
                let before = area.item_rect(
                    thickness,
                    reach(extents, (n - 1) as nat),
                    extents[n - 1],
                );
                &&& area.width >= area.height ==> r.y == before.y + extents[n - 1]
                &&& area.width < area.height ==> r.x == before.x + extents[n - 1]
            }
            &&& area.width >= area.height ==> r.height == extents[n as int] || r.y + r.height
                == area.y + area.height
            &&& area.width < area.height ==> r.width == extents[n as int] || r.x + r.width
                == area.x + area.width
        }),
{
    lemma_reach_grows(extents, n, (extents.len() - 1) as nat);
    if n > 0 {
        lemma_reach_grows(extents, (n - 1) as nat, (extents.len() - 1) as nat);
    }
}

/// What a row leaves begins where the row ends and reaches as far as the area did.
pub proof fn law_rest_begins_where_the_row_ends(area: Area, thickness: u16, extents: Seq<u16>)
    requires
        area.row_fits(thickness, extents),
    ensures
        ({
            let rest = area.after_row(thickness);
            &&& area.width >= area.height ==> {
                &&& rest.x == area.x + thickness
                &&& rest.y == area.y
                &&& rest.height == area.height
                &&& thickness <= area.width ==> rest.width == area.width - thickness
                &&& thickness > area.width ==> rest.width == 0
            }
            &&& area.width < area.height ==> {
                &&& rest.y == area.y + thickness
                &&& rest.x == area.x
                &&& rest.width == area.width
                &&& thickness <= area.height ==> rest.height == area.height - thickness
                &&& thickness > area.height ==> rest.height == 0
            }
        }),
{
}

/// Where every item of a row has a cell, there is one rectangle for each, in order, for the entries
/// that come next, and in the colour for the depth.
pub proof fn law_one_rectangle_for_each(
    map: Treemap,
    thickness: u16,
    extents: Seq<u16>,
    n: nat,
)
    requires
        n <= extents.len(),
        forall|i: int|
            0 <= i < n ==> (#[trigger] map.area.item_rect(
                thickness,
                reach(extents, i as nat),
                extents[i],
            )).width > 0 && map.area.item_rect(
                thickness,
                reach(extents, i as nat),
                extents[i],
            ).height > 0,
    ensures
        row_rects(map, thickness, extents, n).len() == n,
        forall|i: int|
            0 <= i < n ==> {
                let r = #[trigger] row_rects(map, thickness, extents, n)[i];
                &&& r.entry == map.order@[map.placed + i]
                &&& r.rect == map.area.item_rect(thickness, reach(extents, i as nat), extents[i])
                &&& r.color_index == map.depth % 8
            },
    decreases n,
{
    if n > 0 {
        law_one_rectangle_for_each(map, thickness, extents, (n - 1) as nat);
        let rect = map.area.item_rect(thickness, reach(extents, (n - 1) as nat), extents[n - 1]);
        assert(rect.width > 0 && rect.height > 0);
    }
}

/// An item without a cell has no rectangle.
pub proof fn law_no_rectangle_without_a_cell(map: Treemap, thickness: u16, extents: Seq<u16>, n: nat)
    requires
        0 < n <= extents.len(),
        ({
            let rect = map.area.item_rect(
                thickness,
                reach(extents, (n - 1) as nat),
                extents[n - 1],
            );
            rect.width == 0 || rect.height == 0
        }),
    ensures
        row_rects(map, thickness, extents, n) == row_rects(
            map,
            thickness,
            extents,
            (n - 1) as nat,
        ),
{
}

/// What is left to be placed after a row is what was left before it less the sizes in the row; at
/// first it is the sum of all sizes, and at the end nothing.
pub proof fn law_rest_shrinks_by_the_row(sizes: Seq<i64>, places: Seq<usize>, n: int)
    requires
        0 <= n <= places.len(),
    ensures
        sum_at(sizes, places) == sum_at(sizes, places.take(n)) + sum_at(sizes, places.skip(n)),
        sum_at(sizes, Seq::empty()) == 0,
        places.len() == 1 ==> sum_at(sizes, places) == sizes[places[0] as int],
    decreases places.len(),
{
    if n == 0 {
        assert(places.take(0) =~= Seq::empty());
        assert(places.skip(0) =~= places);
    } else {
        law_rest_shrinks_by_the_row(sizes, places.skip(1), n - 1);
        assert(places.take(n).skip(1) =~= places.skip(1).take(n - 1));
        assert(places.skip(1).skip(n - 1) =~= places.skip(n));
        assert(places.take(n)[0] == places[0]);
    }
    if places.len() == 1 {
        assert(places.skip(1) =~= Seq::empty());
        assert(sum_at(sizes, places.skip(1)) == 0);
    }
}

/// Sizes that are not negative can be added up where their sum can be held.
pub proof fn law_sizes_can_be_added(sizes: Seq<i64>, n: nat)
    requires
        n <= sizes.len(),
        forall|i: int| 0 <= i < sizes.len() ==> #[trigger] sizes[i] >= 0,
    ensures
        gains(sizes, n) == sum_to(sizes, n),
        n == sizes.len() ==> (addable(sizes) <==> sum_to(sizes, n) <= i64::MAX),
        n > 0 ==> sum_to(sizes, n) == sum_to(sizes, (n - 1) as nat) + sizes[n - 1],
        sum_to(sizes, 0) == 0,
    decreases n,
{
    if n > 0 {
        law_sizes_can_be_added(sizes, (n - 1) as nat);
        assert(sizes[n - 1] >= 0);
    }
}

} // verus!
