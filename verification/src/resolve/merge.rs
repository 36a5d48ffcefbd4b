//! Merged ranges: the declared ranges are checked, then registered together.
use crate::error::{Error, ErrorView};
use crate::model::cell;
use crate::model::cell::CellRef;
use crate::model::region;
use crate::model::region::MergedRegion;
use crate::model::sheet;
use crate::model::sheet::{Sheet, SheetView};
use vstd::prelude::*;

verus! {

/// How many merged ranges a sheet may declare.
pub const MAX_MERGE_REGIONS: usize = 20_000;

/// The first of the accepted areas that an area overlaps.
pub open spec fn first_met(area: MergedRegion, accepted: Seq<MergedRegion>) -> Option<int>
    decreases accepted.len(),
{
    if accepted.len() == 0 {
        None
    } else {
        match first_met(area, accepted.drop_last()) {
            Some(j) => Some(j),
            None => if region::overlap(area, accepted.last()) {
                Some(accepted.len() - 1)
            } else {
                None
            },
        }
    }
}

/// What the first overlapped area is.
pub proof fn lemma_first_met(area: MergedRegion, accepted: Seq<MergedRegion>)
    ensures
        match first_met(area, accepted) {
            Some(j) => 0 <= j < accepted.len() && region::overlap(area, accepted[j]) && (forall|
                k: int,
            |
                0 <= k < j ==> !region::overlap(area, #[trigger] accepted[k])),
            None => forall|k: int|
                0 <= k < accepted.len() ==> !region::overlap(area, #[trigger] accepted[k]),
        },
    decreases accepted.len(),
{
    if accepted.len() > 0 {
        let front = accepted.drop_last();
        lemma_first_met(area, front);
        assert forall|k: int| 0 <= k < front.len() implies #[trigger] accepted[k] == front[k] by {}
    }
}

/// Looks for the first of the first `n` areas that an area overlaps.
pub fn find_met(area: &MergedRegion, areas: &Vec<MergedRegion>, n: usize) -> (found: Option<usize>)
    requires
        n <= areas@.len(),
    ensures
        (match found {
            Some(j) => Some(j as int),
            None => None,
        }) == first_met(*area, areas@.take(n as int)),
        found matches Some(j) ==> j < n,
{
    let mut j: usize = 0;
    while j < n
        invariant
            j <= n <= areas@.len(),
            forall|k: int| 0 <= k < j ==> !region::overlap(*area, #[trigger] areas@[k]),
        decreases n - j,
    {
        if region::regions_overlap(area, &areas[j]) {
            proof {
                lemma_first_met(*area, areas@.take(n as int));
                assert(areas@.take(n as int)[j as int] == areas@[j as int]);
            }
            return Some(j);
        }
        j += 1;
    }
    proof {
        lemma_first_met(*area, areas@.take(n as int));
    }
    None
}

/// What is wrong with a merged range, given those in front of it.
pub open spec fn region_fault(m: MergedRegion, accepted: Seq<MergedRegion>) -> Option<ErrorView> {
    if !m.valid() {
        Some(
            ErrorView::InvalidMergedRange {
                start: cell::a1_text(m.start),
                end: cell::a1_text(m.end),
                reason: "start must not be greater than end"@,
            },
        )
    } else if first_met(m, accepted) is Some {
        Some(
            ErrorView::InvalidMergedRange {
                start: cell::a1_text(m.start),
                end: cell::a1_text(m.end),
                reason: "overlaps with another merged range"@,
            },
        )
    } else {
        None
    }
}

/// What is wrong with the first bad merged range of a list.
pub open spec fn regions_fault(regions: Seq<MergedRegion>) -> Option<ErrorView>
    decreases regions.len(),
{
    if regions.len() == 0 {
        None
    } else {
        match regions_fault(regions.drop_last()) {
            Some(e) => Some(e),
            None => region_fault(regions.last(), regions.drop_last()),
        }
    }
}

/// What is wrong with a sheet's merged ranges: there are too many, or one of them
/// is reversed or overlaps one in front of it.
pub open spec fn merges_fault(regions: Seq<MergedRegion>) -> Option<ErrorView> {
    if regions.len() > MAX_MERGE_REGIONS {
        Some(
            ErrorView::TooManyMergedRanges {
                count: regions.len() as usize,
                limit: MAX_MERGE_REGIONS,
            },
        )
    } else {
        regions_fault(regions)
    }
}

proof fn lemma_fault_stays(regions: Seq<MergedRegion>, k: int)
    requires
        0 <= k <= regions.len(),
        regions_fault(regions.take(k)) is Some,
    ensures
        regions_fault(regions) == regions_fault(regions.take(k)),
    decreases regions.len(),
{
    if k == regions.len() {
        assert(regions.take(k) =~= regions);
    } else {
        assert(regions.drop_last().take(k) =~= regions.take(k));
        lemma_fault_stays(regions.drop_last(), k);
    }
}

/// Merged ranges pass the checks exactly when every one has ordered corners and
/// no two of them overlap.
pub proof fn law_accepted_merges_are_disjoint(regions: Seq<MergedRegion>)
    ensures
        regions_fault(regions) is None <==> region::disjoint(regions),
    decreases regions.len(),
{
    if regions.len() > 0 {
        let front = regions.drop_last();
        let last = regions.last();
        law_accepted_merges_are_disjoint(front);
        lemma_first_met(last, front);
        assert forall|k: int| 0 <= k < front.len() implies #[trigger] regions[k] == front[k] by {}
        if region::disjoint(regions) {
            assert(regions[regions.len() - 1].valid());
            assert forall|i: int, j: int| 0 <= i < j < front.len() implies !region::overlap(
                #[trigger] front[i],
                #[trigger] front[j],
            ) by {
                assert(!region::overlap(regions[i], regions[j]));
            }
            assert forall|k: int| 0 <= k < front.len() implies (#[trigger] front[k]).valid() by {
                assert(regions[k].valid());
            }
            assert forall|k: int| 0 <= k < front.len() implies !region::overlap(
                last,
                #[trigger] front[k],
            ) by {
                assert(!region::overlap(regions[k], regions[regions.len() - 1]));
            }
        }
        if regions_fault(regions) is None {
            assert forall|i: int, j: int| 0 <= i < j < regions.len() implies !region::overlap(
                #[trigger] regions[i],
                #[trigger] regions[j],
            ) by {
                if j < front.len() {
                    assert(!region::overlap(front[i], front[j]));
                } else {
                    assert(!region::overlap(last, front[i]));
                }
            }
            assert forall|k: int| 0 <= k < regions.len() implies (
            #[trigger] regions[k]).valid() by {
                if k < front.len() {
                    assert(front[k].valid());
                }
            }
        }
    }
}

/// Whether no region of a list overlaps one that is registered.
pub open spec fn clear_of(
    merges: Map<CellRef, MergedRegion>,
    regions: Seq<MergedRegion>,
) -> bool {
    forall|k: CellRef, i: int|
        #![trigger merges[k], regions[i]]
        merges.contains_key(k) && 0 <= i < regions.len() ==> !region::overlap(
            merges[k],
            regions[i],
        )
}

/// What registering disjoint regions leaves registered.
pub proof fn lemma_with_merges(s: SheetView, regions: Seq<MergedRegion>)
    requires
        region::disjoint(regions),
        sheet::merges_disjoint(s.merges),
        clear_of(s.merges, regions),
    ensures
        sheet::merges_disjoint(sheet::with_merges(s, regions).merges),
        forall|k: CellRef| #[trigger]
            sheet::with_merges(s, regions).merges.contains_key(k) ==> (s.merges.contains_key(k)
                && s.merges[k] == sheet::with_merges(s, regions).merges[k]) || (exists|i: int|
                0 <= i < regions.len() && #[trigger] regions[i] == sheet::with_merges(
                    s,
                    regions,
                ).merges[k]),
    decreases regions.len(),
{
    if regions.len() > 0 {
        let front = regions.drop_last();
        let last = regions.last();
        assert(last == regions[regions.len() - 1]);
        assert forall|k: int| 0 <= k < front.len() implies #[trigger] regions[k] == front[k] by {}
        assert(region::disjoint(front)) by {
            assert forall|i: int, j: int| 0 <= i < j < front.len() implies !region::overlap(
                #[trigger] front[i],
                #[trigger] front[j],
            ) by {
                assert(!region::overlap(regions[i], regions[j]));
            }
            assert forall|k: int| 0 <= k < front.len() implies (#[trigger] front[k]).valid() by {
                assert(regions[k].valid());
            }
        }
        assert(clear_of(s.merges, front)) by {
            assert forall|k: CellRef, i: int|
                #![trigger s.merges[k], front[i]]
                s.merges.contains_key(k) && 0 <= i < front.len() implies !region::overlap(
                s.merges[k],
                front[i],
            ) by {
                assert(!region::overlap(s.merges[k], regions[i]));
            }
        }
        lemma_with_merges(s, front);
        let before = sheet::with_merges(s, front).merges;
        let after = sheet::with_merges(s, regions).merges;
        assert(after =~= before.insert(last.start, last));
        assert forall|k: CellRef| before.contains_key(k) implies !region::overlap(
            #[trigger] before[k],
            last,
        ) by {
            if exists|i: int| 0 <= i < front.len() && #[trigger] front[i] == before[k] {
                let i = choose|i: int| 0 <= i < front.len() && #[trigger] front[i] == before[k];
                assert(!region::overlap(regions[i], regions[regions.len() - 1]));
            } else {
                assert(s.merges.contains_key(k) && s.merges[k] == before[k]);
                assert(!region::overlap(s.merges[k], regions[regions.len() - 1]));
            }
        }
        assert(sheet::merges_disjoint(after)) by {
            assert forall|j: CellRef, k: CellRef|
                #![trigger after[j], after[k]]
                after.contains_key(j) && after.contains_key(k) && j != k implies !region::overlap(
                after[j],
                after[k],
            ) by {
                if j == last.start {
                    assert(before.contains_key(k) && before[k] == after[k]);
                } else if k == last.start {
                    assert(before.contains_key(j) && before[j] == after[j]);
                } else {
                    assert(before[j] == after[j] && before[k] == after[k]);
                }
            }
        }
        assert forall|k: CellRef| #[trigger] after.contains_key(k) implies (s.merges.contains_key(k)
            && s.merges[k] == after[k]) || (exists|i: int|
            0 <= i < regions.len() && #[trigger] regions[i] == after[k]) by {
            if k == last.start {
                assert(regions[regions.len() - 1] == after[k]);
            } else {
                assert(before.contains_key(k));
                if exists|i: int| 0 <= i < front.len() && #[trigger] front[i] == before[k] {
                    let i = choose|i: int| 0 <= i < front.len() && #[trigger] front[i] == before[k];
                    assert(regions[i] == after[k]);
                }
            }
        }
    }
}

/// A sheet with merged ranges registered, and the cells that they cover taken
/// out.
pub open spec fn merged(s: SheetView, regions: Seq<MergedRegion>) -> SheetView {
    sheet::without_covered(sheet::with_merges(s, regions))
}

/// What registering regions on a sheet without any does.
proof fn lemma_registered(s: SheetView, regions: Seq<MergedRegion>)
    requires
        region::disjoint(regions),
        s.merges == Map::<CellRef, MergedRegion>::empty(),
    ensures
        ({
            let t = sheet::with_merges(s, regions);
            &&& forall|i: int|
                0 <= i < regions.len() ==> t.merges.contains_key((#[trigger] regions[i]).start)
                    && t.merges[regions[i].start] == regions[i] && t.cells.contains_key(
                    regions[i].start,
                )
            &&& forall|k: CellRef| #[trigger]
                t.merges.contains_key(k) ==> exists|i: int|
                    0 <= i < regions.len() && #[trigger] regions[i] == t.merges[k]
                        && regions[i].start == k
            &&& forall|r: CellRef| #[trigger]
                s.cells.contains_key(r) ==> t.cells.contains_key(r) && t.cells[r] == s.cells[r]
            &&& forall|r: CellRef| #[trigger]
                t.cells.contains_key(r) && !s.cells.contains_key(r) ==> t.cells[r]
                    == cell::blank_cell() && t.merges.contains_key(r)
        }),
    decreases regions.len(),
{
    if regions.len() > 0 {
        let front = regions.drop_last();
        let m = regions.last();
        assert(region::disjoint(front)) by {
            assert forall|i: int| 0 <= i < front.len() implies (#[trigger] front[i]).valid() by {
                assert(front[i] == regions[i]);
            }
            assert forall|i: int, j: int| 0 <= i < j < front.len() implies !region::overlap(
                #[trigger] front[i],
                #[trigger] front[j],
            ) by {
                assert(front[i] == regions[i] && front[j] == regions[j]);
            }
        }
        lemma_registered(s, front);
        let u = sheet::with_merges(s, front);
        let t = sheet::with_merges(s, regions);
        assert(regions[regions.len() - 1] == m);
        assert(m.valid());
        assert(!u.merges.contains_key(m.start)) by {
            if u.merges.contains_key(m.start) {
                let i = choose|i: int|
                    0 <= i < front.len() && #[trigger] front[i] == u.merges[m.start]
                        && front[i].start == m.start;
                assert(regions[i] == front[i]);
                assert(regions[i].valid());
                assert(!region::overlap(regions[i], regions[regions.len() - 1]));
            }
        }
        assert forall|i: int| 0 <= i < regions.len() implies t.merges.contains_key(
            (#[trigger] regions[i]).start,
        ) && t.merges[regions[i].start] == regions[i] && t.cells.contains_key(
            regions[i].start,
        ) by {
            if i < front.len() {
                assert(front[i] == regions[i]);
            }
        }
        assert forall|k: CellRef| #[trigger] t.merges.contains_key(k) implies exists|i: int|
            0 <= i < regions.len() && #[trigger] regions[i] == t.merges[k] && regions[i].start
                == k by {
            if k == m.start {
                assert(regions[regions.len() - 1] == t.merges[k]);
            } else {
                let i = choose|i: int|
                    0 <= i < front.len() && #[trigger] front[i] == u.merges[k] && front[i].start
                        == k;
                assert(regions[i] == front[i]);
            }
        }
    }
}

/// Once merged ranges are registered, every cell that one of them takes in reads as its
/// first cell, which is there and holds what it held before; no other cell of the range
/// is left. What no range takes in stays as it was. No other ranges are registered.
pub proof fn law_merged_ranges_read_as_their_first_cell(
    s: SheetView,
    regions: Seq<MergedRegion>,
    i: int,
    r: CellRef,
)
    requires
        merges_fault(regions) is None,
        s.merges == Map::<CellRef, MergedRegion>::empty(),
    ensures
        ({
            let t = merged(s, regions);
            &&& 0 <= i < regions.len() && regions[i].covers(r) ==> {
                let first = regions[i].start;
                &&& t.merges.contains_key(first) && t.merges[first] == regions[i]
                &&& sheet::origin_of(t.merges, r) == first
                &&& t.cells.contains_key(first)
                &&& s.cells.contains_key(first) ==> t.cells[first] == s.cells[first]
                &&& !s.cells.contains_key(first) ==> t.cells[first] == cell::blank_cell()
                &&& r != first ==> !t.cells.contains_key(r)
            }
            &&& (forall|j: int|
                0 <= j < regions.len() ==> !(#[trigger] regions[j]).covers(r)) ==> {
                &&& sheet::origin_of(t.merges, r) == r
                &&& t.cells.contains_key(r) == s.cells.contains_key(r)
                &&& s.cells.contains_key(r) ==> t.cells[r] == s.cells[r]
            }
            &&& t.merges.contains_key(r) ==> exists|j: int|
                0 <= j < regions.len() && #[trigger] regions[j] == t.merges[r] && regions[j].start
                    == r
        }),
{
    law_accepted_merges_are_disjoint(regions);
    lemma_registered(s, regions);
    lemma_with_merges(s, regions);
    let u = sheet::with_merges(s, regions);
    let t = merged(s, regions);
    assert(sheet::merges_wf(u.merges)) by {
        assert forall|k: CellRef| #[trigger] u.merges.contains_key(k) implies u.merges[k].start == k
            && u.merges[k].valid() by {
            let j = choose|j: int|
                0 <= j < regions.len() && #[trigger] regions[j] == u.merges[k] && regions[j].start
                    == k;
            assert(regions[j].valid());
        }
    }
    if 0 <= i < regions.len() && regions[i].covers(r) {
        let first = regions[i].start;
        assert(regions[i].valid());
        assert(u.merges.contains_key(first) && u.merges[first] == regions[i]);
        sheet::law_regions_read_as_their_first_cell(u.merges, first, r);
        assert(!sheet::is_covered(u.merges, first)) by {
            if sheet::is_covered(u.merges, first) {
                let k = choose|k: CellRef|
                    #[trigger] u.merges.contains_key(k) && u.merges[k].covers(first)
                        && u.merges[k].start != first;
                assert(!region::overlap(u.merges[k], u.merges[first]));
            }
        }
        if r != first {
            assert(sheet::is_covered(u.merges, r));
        }
    }
    if forall|j: int| 0 <= j < regions.len() ==> !(#[trigger] regions[j]).covers(r) {
        assert forall|k: CellRef| #[trigger] u.merges.contains_key(k) implies !u.merges[k].covers(
            r,
        ) by {
            let j = choose|j: int|
                0 <= j < regions.len() && #[trigger] regions[j] == u.merges[k] && regions[j].start
                    == k;
        }
        assert(!sheet::is_covered(u.merges, r));
        if u.merges.contains_key(r) {
            assert(u.merges[r].covers(r));
        }
        assert(!(exists|k: CellRef| sheet::is_first_cover(u.merges, r, k)));
    }
}

/// Registering merged ranges changes nothing of a sheet but its cells, ranges and
/// extent.
pub proof fn lemma_merges_keep_the_rest(s: SheetView, regions: Seq<MergedRegion>)
    ensures
        ({
            let t = merged(s, regions);
            t == (SheetView {
                cells: t.cells,
                merges: t.merges,
                max_row: t.max_row,
                max_col: t.max_col,
                ..s
            })
        }),
    decreases regions.len(),
{
    if regions.len() > 0 {
        lemma_merges_keep_the_rest(s, regions.drop_last());
    }
}

/// Merged ranges are accepted exactly if there are no more than twenty thousand, none
/// ends before it begins, and no two have a cell in common.
pub proof fn law_ranges_that_share_no_cell_are_accepted(regions: Seq<MergedRegion>)
    ensures
        merges_fault(regions) is None <==> {
            &&& regions.len() <= 20_000
            &&& forall|i: int|
                0 <= i < regions.len() ==> (#[trigger] regions[i]).start.row <= regions[i].end.row
                    && regions[i].start.col <= regions[i].end.col
            &&& forall|i: int, j: int, r: CellRef|
                #![trigger regions[i].covers(r), regions[j].covers(r)]
                0 <= i < j < regions.len() ==> !(regions[i].covers(r) && regions[j].covers(r))
        },
{
    law_accepted_merges_are_disjoint(regions);
    if region::disjoint(regions) {
        assert forall|i: int, j: int, r: CellRef|
            #![trigger regions[i].covers(r), regions[j].covers(r)]
            0 <= i < j < regions.len() implies !(regions[i].covers(r) && regions[j].covers(r)) by {
            assert(regions[i].valid() && regions[j].valid());
            assert(!region::overlap(regions[i], regions[j]));
            region::law_overlap_means_a_common_cell(regions[i], regions[j]);
        }
    } else if regions.len() <= 20_000 && (forall|i: int|
        0 <= i < regions.len() ==> (#[trigger] regions[i]).start.row <= regions[i].end.row
            && regions[i].start.col <= regions[i].end.col) {
        assert forall|i: int| 0 <= i < regions.len() implies (#[trigger] regions[i]).valid() by {}
        let (i, j) = choose|i: int, j: int|
            0 <= i < j < regions.len() && region::overlap(
                #[trigger] regions[i],
                #[trigger] regions[j],
            );
        assert(regions[i].valid() && regions[j].valid());
        region::law_overlap_means_a_common_cell(regions[i], regions[j]);
        let r = choose|r: CellRef| #[trigger] regions[i].covers(r) && regions[j].covers(r);
        assert(regions[i].covers(r) && regions[j].covers(r));
    }
}

/// Checks a merged range against the first `n` of a list.
pub fn validate_region(m: &MergedRegion, regions: &Vec<MergedRegion>, n: usize) -> (r: Result<
    (),
    Error,
>)
    requires
        n <= regions@.len(),
    ensures
        match region_fault(*m, regions@.take(n as int)) {
            Some(f) => r matches Err(e) && e@ == f,
            None => r is Ok,
        },
{
    if m.start.row > m.end.row || m.start.col > m.end.col {
        return Err(
            Error::InvalidMergedRange {
                start: m.start.to_a1(),
                end: m.end.to_a1(),
                reason: "start must not be greater than end".to_owned(),
            },
        );
    }
    if find_met(m, regions, n).is_some() {
        return Err(
            Error::InvalidMergedRange {
                start: m.start.to_a1(),
                end: m.end.to_a1(),
                reason: "overlaps with another merged range".to_owned(),
            },
        );
    }
    Ok(())
}

/// Checks merged ranges and registers them. A sheet is left as it is if one of
/// them does not pass.
pub fn resolve(sheet: &mut Sheet, regions: Vec<MergedRegion>) -> (r: Result<(), Error>)
    requires
        old(sheet).wf(),
        sheet::merges_disjoint(old(sheet)@.merges),
        clear_of(old(sheet)@.merges, regions@),
    ensures
        final(sheet).wf(),
        match merges_fault(regions@) {
            Some(f) => (r matches Err(e) && e@ == f) && final(sheet)@ == old(sheet)@,
            None => r is Ok && final(sheet)@ == merged(old(sheet)@, regions@),
        },
        r is Ok ==> sheet::merges_disjoint(final(sheet)@.merges),
{
    if regions.len() > MAX_MERGE_REGIONS {
        return Err(
            Error::TooManyMergedRanges { count: regions.len(), limit: MAX_MERGE_REGIONS },
        );
    }
    let mut i: usize = 0;
    assert(regions@.take(0) =~= Seq::<MergedRegion>::empty());
    while i < regions.len()
        invariant
            i <= regions@.len(),
            regions@.len() <= MAX_MERGE_REGIONS,
            regions_fault(regions@.take(i as int)) is None,
            sheet.wf(),
            sheet@ == old(sheet)@,
        decreases regions@.len() - i,
    {
        assert(regions@.take(i + 1).drop_last() =~= regions@.take(i as int));
        match validate_region(&regions[i], &regions, i) {
            Ok(()) => {},
            Err(e) => {
                proof {
                    lemma_fault_stays(regions@, i + 1);
                }
                return Err(e);
            },
        }
        i += 1;
    }
    assert(regions@.take(i as int) =~= regions@);
    proof {
        law_accepted_merges_are_disjoint(regions@);
        lemma_with_merges(old(sheet)@, regions@);
    }
    let mut k: usize = 0;
    assert(regions@.take(0) =~= Seq::<MergedRegion>::empty());
    while k < regions.len()
        invariant
            k <= regions@.len(),
            region::disjoint(regions@),
            sheet.wf(),
            sheet@ == sheet::with_merges(old(sheet)@, regions@.take(k as int)),
        decreases regions@.len() - k,
    {
        assert(regions@.take(k + 1).drop_last() =~= regions@.take(k as int));
        assert(regions@[k as int].valid());
        sheet.insert_merge(regions[k]);
        k += 1;
    }
    assert(regions@.take(k as int) =~= regions@);
    sheet.finalize_merges();
    Ok(())
}

} // verus!
