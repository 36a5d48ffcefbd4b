//! Row heights: the ranges are sorted, checked and registered.
use crate::error::{Error, ErrorView};
use crate::model::range;
use crate::model::range::{RangeView, RowHeightRange};
use crate::model::sheet::{Sheet, SheetView};
use crate::number;
use crate::number::Number;
use vstd::prelude::*;

verus! {

/// How many row height ranges a sheet may have.
pub const MAX_ROW_HEIGHT_RANGES: usize = 2_000;

/// What is wrong with a list of row height ranges: there are too many, or, once
/// they are sorted, one begins before its neighbour has ended.
pub open spec fn heights_fault(ranges: Seq<RangeView>) -> Option<ErrorView> {
    let sorted = range::arranged(ranges);
    if ranges.len() > MAX_ROW_HEIGHT_RANGES {
        Some(
            ErrorView::TooManyRowHeightRanges {
                count: ranges.len() as usize,
                limit: MAX_ROW_HEIGHT_RANGES,
            },
        )
    } else if exists|i: int| range::is_first_overlap(sorted, i) {
        let i = choose|i: int| range::is_first_overlap(sorted, i);
        Some(
            ErrorView::InvalidRowHeightRange {
                min: sorted[i].min,
                max: sorted[i].max,
                reason: "overlaps another row height range"@,
            },
        )
    } else {
        None
    }
}

/// A sheet with row heights registered.
pub open spec fn with_heights(
    s: SheetView,
    ranges: Seq<RangeView>,
    default: Option<Seq<char>>,
) -> SheetView {
    SheetView { row_heights: range::arranged(ranges), default_row_height: default, ..s }
}

/// Ranges that pass the checks lie apart once they are sorted, and all of them
/// are there.
pub proof fn law_accepted_heights_lie_apart(ranges: Seq<RangeView>)
    requires
        heights_fault(ranges) is None,
        forall|k: int| 0 <= k < ranges.len() ==> (#[trigger] ranges[k]).min <= ranges[k].max,
    ensures
        range::apart(range::arranged(ranges)),
        range::arranged(ranges).to_multiset() == ranges.to_multiset(),
{
    let sorted = range::arranged(ranges);
    range::lemma_arranged(ranges);
    assert forall|k: int| 0 <= k < sorted.len() implies (#[trigger] sorted[k]).min
        <= sorted[k].max by {
        range::lemma_arranged_member(ranges, k);
    }
    assert forall|k: int| 0 < k < sorted.len() implies sorted[k - 1].max < (
    #[trigger] sorted[k]).min by {
        if sorted[k - 1].max >= sorted[k].min {
            range::lemma_first_overlap(sorted, k);
        }
    }
    range::lemma_apart(sorted);
}

/// Every row that a declared range takes in has that range's height.
pub proof fn law_rows_have_their_declared_height(
    ranges: Seq<RangeView>,
    default: Option<Seq<char>>,
    i: int,
    row: u32,
    height: Option<Seq<char>>,
)
    requires
        heights_fault(ranges) is None,
        forall|k: int| 0 <= k < ranges.len() ==> (#[trigger] ranges[k]).min <= ranges[k].max,
        0 <= i < ranges.len(),
        ranges[i].min <= row <= ranges[i].max,
        range::is_size_at(range::arranged(ranges), default, row, height),
    ensures
        height == Some(ranges[i].size),
{
    broadcast use vstd::seq_lib::group_to_multiset_ensures;

    range::lemma_arranged(ranges);
    let sorted = range::arranged(ranges);
    assert(ranges.contains(ranges[i]));
    assert(ranges.to_multiset().count(ranges[i]) > 0);
    assert(sorted.contains(ranges[i]));
    let k = choose|k: int| 0 <= k < sorted.len() && sorted[k] == ranges[i];
    assert(sorted[k].min <= row <= sorted[k].max);
}

/// Every row that no declared range takes in has the default height.
pub proof fn law_other_rows_have_the_default_height(
    ranges: Seq<RangeView>,
    default: Option<Seq<char>>,
    row: u32,
    height: Option<Seq<char>>,
)
    requires
        range::is_size_at(range::arranged(ranges), default, row, height),
        forall|i: int|
            0 <= i < ranges.len() ==> !((#[trigger] ranges[i]).min <= row <= ranges[i].max),
    ensures
        height == default,
{
    let sorted = range::arranged(ranges);
    assert forall|k: int| 0 <= k < sorted.len() implies !((#[trigger] sorted[k]).min <= row
        <= sorted[k].max) by {
        range::lemma_arranged_member(ranges, k);
    }
}

/// Row height ranges are accepted exactly if there are no more than two thousand and no
/// two have a row in common.
pub proof fn law_ranges_that_share_no_row_are_accepted(ranges: Seq<RangeView>)
    requires
        forall|k: int| 0 <= k < ranges.len() ==> (#[trigger] ranges[k]).min <= ranges[k].max,
    ensures
        heights_fault(ranges) is None <==> ranges.len() <= 2_000 && range::share_nothing(ranges),
{
    range::lemma_arranged(ranges);
    let sorted = range::arranged(ranges);
    if heights_fault(ranges) is None {
        law_accepted_heights_lie_apart(ranges);
        range::lemma_apart_shares_nothing(sorted);
        range::lemma_sharing_is_by_members(sorted, ranges);
    } else if ranges.len() <= 2_000 && range::share_nothing(ranges) {
        range::lemma_sharing_is_by_members(ranges, sorted);
        let i = choose|i: int| range::is_first_overlap(sorted, i);
        assert(range::is_first_overlap(sorted, i));
        range::lemma_arranged_member(ranges, i);
        range::lemma_arranged_member(ranges, i - 1);
        assert(sorted[i - 1].min <= sorted[i].min);
        assert(range::takes_in(sorted[i - 1], sorted[i].min));
        assert(range::takes_in(sorted[i], sorted[i].min));
    }
}

/// Checks row height ranges and registers them, with the default height. A sheet
/// is left as it is if they do not pass.
pub fn resolve(
    sheet: &mut Sheet,
    ranges: Vec<RowHeightRange>,
    default_row_height: Option<Number>,
) -> (r: Result<(), Error>)
    requires
        old(sheet).wf(),
        forall|k: int| 0 <= k < ranges@.len() ==> (#[trigger] ranges@[k]).min <= ranges@[k].max,
    ensures
        final(sheet).wf(),
        match heights_fault(range::views(ranges@)) {
            Some(f) => (r matches Err(e) && e@ == f) && final(sheet)@ == old(sheet)@,
            None => r is Ok && final(sheet)@ == with_heights(
                old(sheet)@,
                range::views(ranges@),
                number::number_opt(default_row_height),
            ),
        },
{
    let ghost vs = range::views(ranges@);
    if ranges.len() > MAX_ROW_HEIGHT_RANGES {
        return Err(
            Error::TooManyRowHeightRanges { count: ranges.len(), limit: MAX_ROW_HEIGHT_RANGES },
        );
    }
    assert forall|k: int| 0 <= k < vs.len() implies (#[trigger] vs[k]).min <= vs[k].max by {
        assert(vs[k] == ranges@[k]@);
    }
    let sorted: Vec<RowHeightRange> = range::arrange(ranges);
    let ghost ss = range::views(sorted@);
    if let Some(i) = range::find_overlap(&sorted) {
        assert(ss[i as int] == sorted@[i as int]@);
        assert(range::is_first_overlap(ss, i as int));
        return Err(
            Error::InvalidRowHeightRange {
                min: sorted[i].min,
                max: sorted[i].max,
                reason: "overlaps another row height range".to_owned(),
            },
        );
    }
    assert(forall|k: int| 0 < k < ss.len() ==> ss[k - 1].max < (#[trigger] ss[k]).min);
    proof {
        law_accepted_heights_lie_apart(vs);
    }
    sheet.set_row_heights(sorted, default_row_height);
    Ok(())
}

} // verus!
