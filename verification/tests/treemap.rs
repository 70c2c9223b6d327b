//! Rows of a treemap, and sorting.
use rootkitty::sort::{sorted_order, Alphabetical, LargestFirst};
use rootkitty::ui::treemap::{can_add, can_place, row_length, Area, Treemap, ROW_LIMIT};

fn area(x: u16, y: u16, width: u16, height: u16) -> Area {
    Area { x, y, width, height }
}

#[test]
fn nothing_to_lay_out() {
    assert!(Treemap::start(&vec![], area(0, 0, 10, 10), 0).is_none());
    assert!(Treemap::start(&vec![5], area(0, 0, 0, 10), 0).is_none());
    assert!(Treemap::start(&vec![5], area(0, 0, 10, 0), 0).is_none());
    assert!(Treemap::start(&vec![0, 0], area(0, 0, 10, 10), 0).is_none());
}

#[test]
fn largest_comes_first() {
    let sizes = vec![5, 20, 5, 70];
    let map = Treemap::start(&sizes, area(0, 0, 10, 10), 3).unwrap();
    assert_eq!(map.order, vec![3, 1, 0, 2]);
    assert_eq!(map.left(&sizes), 100);
    assert!(!map.is_done());
}

#[test]
fn what_is_left_to_place() {
    let sizes = vec![5, 20, -4, 70];
    let mut map = Treemap::start(&sizes, area(0, 0, 10, 10), 0).unwrap();
    assert_eq!(map.left(&sizes), 91);
    map.place_row(7, &vec![10]);
    assert_eq!(map.left(&sizes), 21);
    map.place_row(2, &vec![2, 1]);
    assert_eq!(map.left(&sizes), -4);
    map.place_row(0, &vec![0]);
    assert_eq!(map.left(&sizes), 0);
    assert!(map.is_done());
}

#[test]
fn rows_cover_no_cell_twice() {
    let sizes = vec![9, 8, 7, 6, 5, 4];
    let whole = area(3, 4, 12, 9);
    let mut map = Treemap::start(&sizes, whole, 0).unwrap();
    let mut rects = Vec::new();
    for (thickness, extents) in [(5, vec![5, 4]), (4, vec![4, 3]), (20, vec![6]), (3, vec![0])] {
        assert!(can_place(map.area, thickness, &extents));
        rects.extend(map.place_row(thickness, &extents));
    }
    assert!(map.is_done());
    // Beyond the end of the area nothing is placed any more.
    assert_eq!(rects.len(), 5);
    for (i, a) in rects.iter().enumerate() {
        let r = a.rect;
        assert!(r.x >= whole.x && r.x + r.width <= whole.x + whole.width);
        assert!(r.y >= whole.y && r.y + r.height <= whole.y + whole.height);
        for b in &rects[..i] {
            let s = b.rect;
            assert_ne!(a.entry, b.entry);
            assert!(
                r.x + r.width <= s.x
                    || s.x + s.width <= r.x
                    || r.y + r.height <= s.y
                    || s.y + s.height <= r.y
            );
        }
    }
}

#[test]
fn rows_of_a_wide_area_are_columns() {
    let mut map = Treemap::start(&vec![60, 40, 10], area(2, 3, 20, 10), 9).unwrap();
    assert!(can_place(map.area, 12, &vec![6, 4]));
    let rects = map.place_row(12, &vec![6, 4]);
    assert_eq!(rects.len(), 2);
    assert_eq!(rects[0].rect, area(2, 3, 12, 6));
    assert_eq!(rects[1].rect, area(2, 9, 12, 4));
    assert_eq!((rects[0].entry, rects[1].entry), (0, 1));
    assert_eq!(rects[0].color_index, 1);
    assert_eq!(map.area, area(14, 3, 8, 10));
    // What is left is high, so the next row lies flat. It is cut off where the area ends.
    let rects = map.place_row(30, &vec![9]);
    assert_eq!(rects[0].rect, area(14, 3, 8, 10));
    assert_eq!(map.area.height, 0);
    assert!(map.is_done());
}

#[test]
fn rectangles_without_a_cell_are_left_out() {
    let mut map = Treemap::start(&vec![60, 1], area(0, 0, 20, 10), 0).unwrap();
    let rects = map.place_row(5, &vec![10, 0]);
    assert_eq!(rects.len(), 1);
    assert!(map.is_done());
}

#[test]
fn rows_that_do_not_fit() {
    assert!(!can_place(area(0, 0, 20, 10), 5, &vec![]));
    assert!(!can_place(area(0, 0, 20, 10), 5, &vec![11, 1]));
    assert!(can_place(area(0, 0, 20, 10), 5, &vec![10, 1]));
    assert!(!can_place(area(u16::MAX, 0, 20, 10), 5, &vec![1]));
}

#[test]
fn rows_end_where_they_get_worse() {
    assert_eq!(row_length(&vec![true, true, false, true]), 2);
    assert_eq!(row_length(&vec![false, true]), 1);
    assert_eq!(row_length(&vec![true]), 1);
    assert_eq!(row_length(&vec![true; 30]), ROW_LIMIT);
    assert_eq!(row_length(&vec![]), 1);
}

#[test]
fn sizes_that_cannot_be_added() {
    assert!(can_add(&vec![1, 2, 3]));
    assert!(!can_add(&vec![i64::MAX, 1]));
    assert!(!can_add(&vec![i64::MIN, -1]));
    assert!(can_add(&vec![i64::MAX, i64::MIN]));
}

#[test]
fn sorting_is_stable() {
    let mut seed: u64 = 7;
    let mut sizes: Vec<i64> = Vec::new();
    for _ in 0..500 {
        seed = seed.wrapping_mul(6364136223846793005).wrapping_add(1442695040888963407);
        sizes.push((seed >> 60) as i64);
    }
    let keys: Vec<LargestFirst> = sizes.iter().map(|s| LargestFirst { size: *s }).collect();
    let mut expected: Vec<usize> = (0..sizes.len()).collect();
    expected.sort_by_key(|i| std::cmp::Reverse(sizes[*i]));
    assert_eq!(sorted_order(&keys), expected);
}

#[test]
fn texts_are_sorted_as_strings_are() {
    let texts = ["/b", "/a", "/a/b", "/ä", "/a", "", "/Z", "🦀", "/a-b"];
    let keys: Vec<Alphabetical> =
        texts.iter().map(|t| Alphabetical { chars: t.chars().collect() }).collect();
    let mut expected: Vec<usize> = (0..texts.len()).collect();
    expected.sort_by_key(|i| texts[*i]);
    assert_eq!(sorted_order(&keys), expected);
}
