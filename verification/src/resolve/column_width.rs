//! Column widths: the declared ranges are checked, sorted and registered.
use crate::error::{Error, ErrorView};
use crate::model::range;
use crate::model::range::{ColWidthRange, RangeView};
use crate::model::sheet::{Sheet, SheetView};
use crate::number;
use crate::number::Number;
use vstd::prelude::*;

verus! {

/// How many column width ranges a sheet may declare.
pub const MAX_COLUMN_WIDTH_RANGES: usize = 2_000;

/// What is wrong with a list of column width ranges: there are too many, one is
/// reversed, or, once they are sorted, one begins before its neighbour has ended.
pub open spec fn widths_fault(ranges: Seq<RangeView>) -> Option<ErrorView> {
    let sorted = range::arranged(ranges);
    if ranges.len() > MAX_COLUMN_WIDTH_RANGES {
        Some(
            ErrorView::TooManyColumnWidthRanges {
                count: ranges.len() as usize,
                limit: MAX_COLUMN_WIDTH_RANGES,
            },
        )
    } else if exists|i: int| range::is_first_reversed(ranges, i) {
        let i = choose|i: int| range::is_first_reversed(ranges, i);
        Some(
            ErrorView::InvalidColumnWidthRange {
                min: ranges[i].min,
                max: ranges[i].max,
                reason: "min must not be greater than max"@,
            },
        )
    } else if exists|i: int| range::is_first_overlap(sorted, i) {
        let i = choose|i: int| range::is_first_overlap(sorted, i);
        Some(
            ErrorView::InvalidColumnWidthRange {
                min: sorted[i].min,
                max: sorted[i].max,
                reason: "overlaps another column width range"@,
            },
        )
    } else {
        None
    }
}

/// A sheet with column widths registered.
pub open spec fn with_widths(
    s: SheetView,
    ranges: Seq<RangeView>,
    default: Option<Seq<char>>,
) -> SheetView {
    SheetView { col_widths: range::arranged(ranges), default_col_width: default, ..s }
}

/// Ranges that pass the checks lie apart once they are sorted, and all of them
/// are there.
pub proof fn law_accepted_widths_lie_apart(ranges: Seq<RangeView>)
    requires
        widths_fault(ranges) is None,
    ensures
        range::apart(range::arranged(ranges)),
        range::arranged(ranges).to_multiset() == ranges.to_multiset(),
{
    let sorted = range::arranged(ranges);
    range::lemma_arranged(ranges);
    assert forall|k: int| 0 <= k < ranges.len() implies (#[trigger] ranges[k]).min
        <= ranges[k].max by {
        if ranges[k].min > ranges[k].max {
            range::lemma_first_reversed(ranges, k);
        }
    }
    assert forall|k: int| 0 <= k < sorted.len() implies (#[trigger] sorted[k]).min
        <= sorted[k].max by {
        range::lemma_arranged_member(ranges, k);
    }
    assert forall|k: int| 0 < k < sorted.len() implies sorted[k - 1].max < (
    #[trigger] sorted[k]).min by {
        if sorted[k - 1].max >= sorted[k].min {
            range::lemma_first_overlap(sorted, k);
        }
    }
    range::lemma_apart(sorted);
}

/// Every column that a declared range takes in has that range's width.
pub proof fn law_columns_have_their_declared_width(
    ranges: Seq<RangeView>,
    default: Option<Seq<char>>,
    i: int,
    col: u32,
    width: Option<Seq<char>>,
)
    requires
        widths_fault(ranges) is None,
        0 <= i < ranges.len(),
        ranges[i].min <= col <= ranges[i].max,
        range::is_size_at(range::arranged(ranges), default, col, width),
    ensures
        width == Some(ranges[i].size),
{
    broadcast use vstd::seq_lib::group_to_multiset_ensures;

    range::lemma_arranged(ranges);
    let sorted = range::arranged(ranges);
    assert(ranges.contains(ranges[i]));
    assert(ranges.to_multiset().count(ranges[i]) > 0);
    assert(sorted.contains(ranges[i]));
    let k = choose|k: int| 0 <= k < sorted.len() && sorted[k] == ranges[i];
    assert(sorted[k].min <= col <= sorted[k].max);
}

/// Every column that no declared range takes in has the default width.
pub proof fn law_other_columns_have_the_default_width(
    ranges: Seq<RangeView>,
    default: Option<Seq<char>>,
    col: u32,
    width: Option<Seq<char>>,
)
    requires
        range::is_size_at(range::arranged(ranges), default, col, width),
        forall|i: int|
            0 <= i < ranges.len() ==> !((#[trigger] ranges[i]).min <= col <= ranges[i].max),
    ensures
        width == default,
{
    let sorted = range::arranged(ranges);
    assert forall|k: int| 0 <= k < sorted.len() implies !((#[trigger] sorted[k]).min <= col
        <= sorted[k].max) by {
        range::lemma_arranged_member(ranges, k);
    }
}

/// Column width ranges are accepted exactly if there are no more than two thousand, none
/// ends before it begins, and no two have a column in common.
pub proof fn law_ranges_that_share_no_column_are_accepted(ranges: Seq<RangeView>)
    ensures
        widths_fault(ranges) is None <==> {
            &&& ranges.len() <= 2_000
            &&& forall|i: int| 0 <= i < ranges.len() ==> (#[trigger] ranges[i]).min <= ranges[i].max
            &&& range::share_nothing(ranges)
        },
{
    range::lemma_arranged(ranges);
    let sorted = range::arranged(ranges);
    if widths_fault(ranges) is None {
        law_accepted_widths_lie_apart(ranges);
        assert forall|i: int| 0 <= i < ranges.len() implies (#[trigger] ranges[i]).min
            <= ranges[i].max by {
            if ranges[i].min > ranges[i].max {
                range::lemma_first_reversed(ranges, i);
            }
        }
        range::lemma_apart_shares_nothing(sorted);
        range::lemma_sharing_is_by_members(sorted, ranges);
    } else if ranges.len() <= 2_000 && (forall|i: int|
        0 <= i < ranges.len() ==> (#[trigger] ranges[i]).min <= ranges[i].max)
        && range::share_nothing(ranges) {
        range::lemma_sharing_is_by_members(ranges, sorted);
        let i = choose|i: int| range::is_first_overlap(sorted, i);
        assert(range::is_first_overlap(sorted, i));
        range::lemma_arranged_member(ranges, i);
        range::lemma_arranged_member(ranges, i - 1);
        assert(sorted[i - 1].min <= sorted[i].min);
        assert(range::takes_in(sorted[i - 1], sorted[i].min));
        assert(range::takes_in(sorted[i], sorted[i].min));
    }
}

/// Checks column width ranges and registers them, with the default width. A
/// sheet is left as it is if they do not pass.
pub fn resolve(
    sheet: &mut Sheet,
    ranges: Vec<ColWidthRange>,
    default_col_width: Option<Number>,
) -> (r: Result<(), Error>)
    requires
        old(sheet).wf(),
    ensures
        final(sheet).wf(),
        match widths_fault(range::views(ranges@)) {
            Some(f) => (r matches Err(e) && e@ == f) && final(sheet)@ == old(sheet)@,
            None => r is Ok && final(sheet)@ == with_widths(
                old(sheet)@,
                range::views(ranges@),
                number::number_opt(default_col_width),
            ),
        },
{
    let ghost vs = range::views(ranges@);
    if ranges.len() > MAX_COLUMN_WIDTH_RANGES {
        return Err(
            Error::TooManyColumnWidthRanges {
                count: ranges.len(),
                limit: MAX_COLUMN_WIDTH_RANGES,
            },
        );
    }
    if let Some(i) = range::find_reversed(&ranges) {
        assert(vs[i as int] == ranges@[i as int]@);
        assert(range::is_first_reversed(vs, i as int));
        return Err(
            Error::InvalidColumnWidthRange {
                min: ranges[i].min,
                max: ranges[i].max,
                reason: "min must not be greater than max".to_owned(),
            },
        );
    }
    assert(forall|k: int| 0 <= k < vs.len() ==> (#[trigger] vs[k]).min <= vs[k].max);
    let sorted: Vec<ColWidthRange> = range::arrange(ranges);
    let ghost ss = range::views(sorted@);
    if let Some(i) = range::find_overlap(&sorted) {
        assert(ss[i as int] == sorted@[i as int]@);
        assert(range::is_first_overlap(ss, i as int));
        return Err(
            Error::InvalidColumnWidthRange {
                min: sorted[i].min,
                max: sorted[i].max,
                reason: "overlaps another column width range".to_owned(),
            },
        );
    }
    assert(forall|k: int| 0 < k < ss.len() ==> ss[k - 1].max < (#[trigger] ss[k]).min);
    proof {
        law_accepted_widths_lie_apart(vs);
    }
    sheet.set_col_widths(sorted, default_col_width);
    Ok(())
}

} // verus!
