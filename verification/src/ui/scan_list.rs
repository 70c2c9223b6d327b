//! The list of scans.
use vstd::prelude::*;

use crate::db::Scan;
use crate::sort::{
    covers, goes_before, lemma_order_unique, sorted_order, Alphabetical, LargestFirst, SortKey,
};
use crate::text::{text_le, to_chars};
use crate::ui::types::SortMode;

verus! {

/// Whether the `i`th scan is shown before the `j`th; of two that are alike the earlier one is.
pub open spec fn scan_before(scans: Seq<Scan>, mode: SortMode, i: int, j: int) -> bool {
    match mode {
        SortMode::BySize => scans[i].total_size > scans[j].total_size || (scans[i].total_size
            == scans[j].total_size && i < j),
        SortMode::ByPath => text_le(scans[i].root_path@, scans[j].root_path@) && (text_le(
            scans[j].root_path@,
            scans[i].root_path@,
        ) ==> i < j),
    }
}

/// `order` lists every scan, in the order in which they are shown.
pub open spec fn is_scan_order(scans: Seq<Scan>, mode: SortMode, order: Seq<usize>) -> bool {
    &&& covers(order, 0, scans.len() as int)
    &&& forall|p: int, q: int|
        0 <= p < q < order.len() ==> scan_before(
            scans,
            mode,
            #[trigger] order[p] as int,
            #[trigger] order[q] as int,
        )
}

/// Scans are shown in one order only.
pub proof fn law_scan_order_determined(
    scans: Seq<Scan>,
    mode: SortMode,
    a: Seq<usize>,
    b: Seq<usize>,
)
    requires
        is_scan_order(scans, mode, a),
        is_scan_order(scans, mode, b),
    ensures
        a == b,
{
    lemma_order_unique(
        scans.len() as int,
        |i: int, j: int| scan_before(scans, mode, i, j),
        a,
        b,
    );
}

/// The order in which the scans are shown: the largest first, or by path.
pub fn scan_order(scans: &Vec<Scan>, mode: SortMode) -> (order: Vec<usize>)
    ensures
        is_scan_order(scans@, mode, order@),
{
    match mode {
        SortMode::BySize => {
            let mut keys: Vec<LargestFirst> = Vec::new();
            let mut i: usize = 0;
            while i < scans.len()
                invariant
                    i <= scans@.len(),
                    keys@.len() == i,
                    forall|j: int| 0 <= j < i ==> (#[trigger] keys@[j]).size == scans@[j].total_size,
                decreases scans@.len() - i,
            {
                keys.push(LargestFirst { size: scans[i].total_size });
                i = i + 1;
            }
            let order = sorted_order(&keys);
            assert forall|p: int, q: int| 0 <= p < q < order@.len() implies scan_before(
                scans@,
                mode,
                #[trigger] order@[p] as int,
                #[trigger] order@[q] as int,
            ) by {
                assert(goes_before(keys@, order@[p] as int, order@[q] as int));
            }
            order
        },
        SortMode::ByPath => {
            let mut keys: Vec<Alphabetical> = Vec::new();
            let mut i: usize = 0;
            while i < scans.len()
                invariant
                    i <= scans@.len(),
                    keys@.len() == i,
                    forall|j: int|
                        0 <= j < i ==> (#[trigger] keys@[j]).chars@ == scans@[j].root_path@,
                decreases scans@.len() - i,
            {
                keys.push(Alphabetical { chars: to_chars(scans[i].root_path.as_str()) });
                i = i + 1;
            }
            let order = sorted_order(&keys);
            assert forall|p: int, q: int| 0 <= p < q < order@.len() implies scan_before(
                scans@,
                mode,
                #[trigger] order@[p] as int,
                #[trigger] order@[q] as int,
            ) by {
                assert(goes_before(keys@, order@[p] as int, order@[q] as int));
            }
            order
        },
    }
}

} // verus!
