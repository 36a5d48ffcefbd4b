//! Hyperlinks: the declared ranges are checked, then registered together.
use crate::error::{Error, ErrorView};
use crate::model::cell;
use crate::model::cell::CellRef;
use crate::model::region;
use crate::model::region::MergedRegion;
use crate::model::sheet;
use crate::model::sheet::{HyperlinkRange, LinkRangeView, Sheet};
use crate::resolve::merge;
use crate::text;
use vstd::prelude::*;

verus! {

/// How many hyperlinks a sheet may declare.
pub const MAX_HYPERLINKS_PER_SHEET: usize = 20_000;

/// `overlaps with another hyperlink range ({start}:{end})`.
pub open spec fn overlap_reason(other: MergedRegion) -> Seq<char> {
    "overlaps with another hyperlink range ("@ + cell::a1_text(other.start) + ":"@
        + cell::a1_text(other.end) + ")"@
}

/// What is wrong with a hyperlink's area, given those in front of it.
pub open spec fn area_fault(area: MergedRegion, accepted: Seq<MergedRegion>) -> Option<ErrorView> {
    if !area.valid() {
        Some(
            ErrorView::InvalidHyperlinkRange {
                start: cell::a1_text(area.start),
                end: cell::a1_text(area.end),
                reason: "start must not be greater than end"@,
            },
        )
    } else {
        match merge::first_met(area, accepted) {
            Some(j) => Some(
                ErrorView::InvalidHyperlinkRange {
                    start: cell::a1_text(area.start),
                    end: cell::a1_text(area.end),
                    reason: overlap_reason(accepted[j]),
                },
            ),
            None => None,
        }
    }
}

/// What is wrong with the first bad area of a list.
pub open spec fn areas_fault(areas: Seq<MergedRegion>) -> Option<ErrorView>
    decreases areas.len(),
{
    if areas.len() == 0 {
        None
    } else {
        match areas_fault(areas.drop_last()) {
            Some(e) => Some(e),
            None => area_fault(areas.last(), areas.drop_last()),
        }
    }
}

/// What is wrong with a sheet's hyperlinks: there are too many, or the area of one
/// is reversed or overlaps one in front of it.
pub open spec fn links_fault(ranges: Seq<LinkRangeView>) -> Option<ErrorView> {
    if ranges.len() > MAX_HYPERLINKS_PER_SHEET {
        Some(
            ErrorView::TooManyHyperlinks {
                count: ranges.len() as usize,
                limit: MAX_HYPERLINKS_PER_SHEET,
            },
        )
    } else {
        areas_fault(sheet::areas_of(ranges))
    }
}

proof fn lemma_fault_stays(areas: Seq<MergedRegion>, k: int)
    requires
        0 <= k <= areas.len(),
        areas_fault(areas.take(k)) is Some,
    ensures
        areas_fault(areas) == areas_fault(areas.take(k)),
    decreases areas.len(),
{
    if k == areas.len() {
        assert(areas.take(k) =~= areas);
    } else {
        assert(areas.drop_last().take(k) =~= areas.take(k));
        lemma_fault_stays(areas.drop_last(), k);
    }
}

/// Hyperlink areas and merged ranges pass or fail the checks alike.
pub proof fn lemma_same_checks(areas: Seq<MergedRegion>)
    ensures
        areas_fault(areas) is None <==> merge::regions_fault(areas) is None,
    decreases areas.len(),
{
    if areas.len() > 0 {
        lemma_same_checks(areas.drop_last());
    }
}

/// Hyperlinks are accepted exactly if there are no more than twenty thousand, the area of
/// none ends before it begins, and no two have a cell in common.
pub proof fn law_links_that_share_no_cell_are_accepted(ranges: Seq<LinkRangeView>)
    ensures
        links_fault(ranges) is None <==> {
            &&& ranges.len() <= 20_000
            &&& forall|i: int|
                0 <= i < ranges.len() ==> (#[trigger] ranges[i]).area.start.row
                    <= ranges[i].area.end.row && ranges[i].area.start.col
                    <= ranges[i].area.end.col
            &&& forall|i: int, j: int, r: CellRef|
                #![trigger ranges[i].area.covers(r), ranges[j].area.covers(r)]
                0 <= i < j < ranges.len() ==> !(ranges[i].area.covers(r)
                    && ranges[j].area.covers(r))
        },
{
    let areas = sheet::areas_of(ranges);
    lemma_same_checks(areas);
    merge::law_ranges_that_share_no_cell_are_accepted(areas);
    assert forall|i: int| 0 <= i < ranges.len() implies #[trigger] areas[i]
        == ranges[i].area by {}
    if links_fault(ranges) is None {
        assert(merge::merges_fault(areas) is None);
        assert forall|i: int| 0 <= i < ranges.len() implies (
        #[trigger] ranges[i]).area.start.row <= ranges[i].area.end.row
            && ranges[i].area.start.col <= ranges[i].area.end.col by {
            assert(areas[i] == ranges[i].area);
        }
        assert forall|i: int, j: int, r: CellRef|
            #![trigger ranges[i].area.covers(r), ranges[j].area.covers(r)]
            0 <= i < j < ranges.len() implies !(ranges[i].area.covers(r)
            && ranges[j].area.covers(r)) by {
            assert(areas[i].covers(r) == ranges[i].area.covers(r));
            assert(areas[j].covers(r) == ranges[j].area.covers(r));
        }
    } else if ranges.len() <= 20_000 {
        assert(merge::merges_fault(areas) is Some);
    }
}

/// Whether two hyperlink ranges overlap.
pub fn ranges_overlap(a: &HyperlinkRange, b: &HyperlinkRange) -> (r: bool)
    ensures
        r == region::overlap(a@.area, b@.area),
{
    region::regions_overlap(
        &MergedRegion { start: a.start, end: a.end },
        &MergedRegion { start: b.start, end: b.end },
    )
}

/// Checks a hyperlink range against the first `n` of a list.
pub fn validate_range(
    range: &HyperlinkRange,
    ranges: &Vec<HyperlinkRange>,
    n: usize,
) -> (r: Result<(), Error>)
    requires
        n <= ranges@.len(),
    ensures
        match area_fault(
            range@.area,
            sheet::areas_of(sheet::link_views(ranges@)).take(n as int),
        ) {
            Some(f) => r matches Err(e) && e@ == f,
            None => r is Ok,
        },
{
    let ghost areas = sheet::areas_of(sheet::link_views(ranges@));
    if range.start.row > range.end.row || range.start.col > range.end.col {
        return Err(
            Error::InvalidHyperlinkRange {
                start: range.start.to_a1(),
                end: range.end.to_a1(),
                reason: "start must not be greater than end".to_owned(),
            },
        );
    }
    let mut j: usize = 0;
    while j < n
        invariant
            j <= n <= ranges@.len(),
            areas == sheet::areas_of(sheet::link_views(ranges@)),
            range@.area.valid(),
            forall|k: int| 0 <= k < j ==> !region::overlap(range@.area, #[trigger] areas[k]),
        decreases n - j,
    {
        assert(areas[j as int] == ranges@[j as int]@.area);
        if ranges_overlap(range, &ranges[j]) {
            let other: &HyperlinkRange = &ranges[j];
            let mut reason: String = text::join3(
                "overlaps with another hyperlink range (",
                other.start.to_a1().as_str(),
                ":",
            );
            text::push_text(&mut reason, other.end.to_a1().as_str());
            text::push_text(&mut reason, ")");
            proof {
                merge::lemma_first_met(range@.area, areas.take(n as int));
                assert(areas.take(n as int)[j as int] == areas[j as int]);
                let met = merge::first_met(range@.area, areas.take(n as int));
                assert(met is Some);
                assert(areas.take(n as int)[met->0] == areas[met->0]);
                assert(met == Some(j as int));
            }
            return Err(
                Error::InvalidHyperlinkRange {
                    start: range.start.to_a1(),
                    end: range.end.to_a1(),
                    reason,
                },
            );
        }
        j += 1;
    }
    proof {
        merge::lemma_first_met(range@.area, areas.take(n as int));
    }
    Ok(())
}

/// Checks hyperlink ranges and registers them. A sheet is left as it is if one of
/// them does not pass.
pub fn resolve(sheet: &mut Sheet, ranges: Vec<HyperlinkRange>) -> (r: Result<(), Error>)
    requires
        old(sheet).wf(),
    ensures
        final(sheet).wf(),
        match links_fault(sheet::link_views(ranges@)) {
            Some(f) => (r matches Err(e) && e@ == f) && final(sheet)@ == old(sheet)@,
            None => r is Ok && final(sheet)@ == sheet::linked(
                old(sheet)@,
                sheet::link_views(ranges@),
            ),
        },
{
    let ghost areas = sheet::areas_of(sheet::link_views(ranges@));
    if ranges.len() > MAX_HYPERLINKS_PER_SHEET {
        return Err(
            Error::TooManyHyperlinks { count: ranges.len(), limit: MAX_HYPERLINKS_PER_SHEET },
        );
    }
    let mut i: usize = 0;
    assert(areas.take(0) =~= Seq::<MergedRegion>::empty());
    while i < ranges.len()
        invariant
            i <= ranges@.len(),
            ranges@.len() <= MAX_HYPERLINKS_PER_SHEET,
            areas == sheet::areas_of(sheet::link_views(ranges@)),
            areas_fault(areas.take(i as int)) is None,
            sheet.wf(),
            sheet@ == old(sheet)@,
        decreases ranges@.len() - i,
    {
        assert(areas.take(i + 1).drop_last() =~= areas.take(i as int));
        assert(areas[i as int] == ranges@[i as int]@.area);
        match validate_range(&ranges[i], &ranges, i) {
            Ok(()) => {},
            Err(e) => {
                proof {
                    lemma_fault_stays(areas, i + 1);
                }
                return Err(e);
            },
        }
        i += 1;
    }
    assert(areas.take(i as int) =~= areas);
    proof {
        lemma_same_checks(areas);
        merge::law_accepted_merges_are_disjoint(areas);
    }
    sheet.finalize_hyperlinks(ranges);
    proof {
        sheet::lemma_linked(old(sheet)@, sheet::link_views(ranges@), sheet@);
    }
    Ok(())
}

} // verus!
