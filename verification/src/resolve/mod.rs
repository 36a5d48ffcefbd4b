//! Resolution: what a worksheet refers to is put in place.
use crate::date::SerialParts;
use crate::error::{Error, ErrorView};
use crate::model::cell::{CellRef, CellView, ValueView};
use crate::model::range;
use crate::model::range::ColWidthRange;
use crate::model::region::MergedRegion;
use crate::model::sheet;
use crate::model::sheet::{Sheet, SheetView};
use crate::model::style::{StyleSheet, StyleView};
use crate::number;
use crate::number::Number;
use crate::parse::shared_strings::SharedStringTable;
use crate::parse::worksheet::{PendingSharedString, PendingStyle, WorksheetView};
use vstd::prelude::*;

pub mod color;
pub mod column_width;
pub mod hyperlink;
pub mod merge;
pub mod row_height;
pub mod shared_strings;
pub mod style;

verus! {

/// What resolving a sheet comes to: the sheet as far as it was taken, and what
/// stopped it. Texts come first, then styles, column widths and merged ranges.
pub open spec fn resolved<F: Fn(&Number) -> Option<SerialParts>>(
    s: SheetView,
    w: WorksheetView,
    table: Seq<Seq<char>>,
    styles: Seq<StyleView>,
    date1904: bool,
    split: F,
) -> (SheetView, Option<ErrorView>) {
    match shared_strings::texts_put(s, w.pending_shared_strings, table) {
        (t, Some(e)) => (t, Some(e)),
        (t, None) => match style::styles_put(t, w.pending_styles, styles, date1904, split) {
            (u, Some(e)) => (u, Some(e)),
            (u, None) => match column_width::widths_fault(w.col_width_ranges) {
                Some(e) => (u, Some(e)),
                None => {
                    let v = column_width::with_widths(
                        u,
                        w.col_width_ranges,
                        w.default_col_width,
                    );
                    match merge::merges_fault(w.merge_regions) {
                        Some(e) => (v, Some(e)),
                        None => (merge::merged(v, w.merge_regions), None),
                    }
                },
            },
        },
    }
}

/// A cell that exists has a cell that stands for it.
pub proof fn lemma_origin_exists(s: SheetView, r: crate::model::cell::CellRef)
    requires
        s.wf(),
        s.cells.contains_key(r),
    ensures
        s.cells.contains_key(sheet::origin_of(s.merges, r)),
{
    if exists|k: crate::model::cell::CellRef| sheet::is_first_cover(s.merges, r, k) {
        let k = choose|k: crate::model::cell::CellRef| sheet::is_first_cover(s.merges, r, k);
        assert(s.merges.contains_key(k));
    }
}

/// Whether one shared string, or none, belongs to a cell.
pub open spec fn is_text_of(pending: Seq<PendingSharedString>, r: CellRef, i: Option<int>) -> bool {
    match i {
        Some(i) => 0 <= i < pending.len() && pending[i].cell_ref == r && forall|j: int|
            0 <= j < pending.len() && j != i ==> (#[trigger] pending[j]).cell_ref != r,
        None => forall|j: int| 0 <= j < pending.len() ==> (#[trigger] pending[j]).cell_ref != r,
    }
}

/// Whether one style, or none, belongs to a cell.
pub open spec fn is_style_of(pending: Seq<PendingStyle>, r: CellRef, i: Option<int>) -> bool {
    match i {
        Some(i) => 0 <= i < pending.len() && pending[i].cell_ref == r && forall|j: int|
            0 <= j < pending.len() && j != i ==> (#[trigger] pending[j]).cell_ref != r,
        None => forall|j: int| 0 <= j < pending.len() ==> (#[trigger] pending[j]).cell_ref != r,
    }
}

proof fn lemma_no_merges(r: CellRef)
    ensures
        sheet::origin_of(Map::empty(), r) == r,
{
    let none = Map::<CellRef, MergedRegion>::empty();
    assert(!(exists|k: CellRef| sheet::is_first_cover(none, r, k)));
}

/// What a sheet is once it is resolved, cell by cell. A cell that refers to a shared
/// string holds that string; one that refers to a style has that style, and its number
/// is a date if the style shows dates; what refers to nothing stays as it was read.
pub proof fn law_resolved_cells_have_their_text_and_style<
    F: Fn(&Number) -> Option<SerialParts>,
>(
    s: SheetView,
    w: WorksheetView,
    table: Seq<Seq<char>>,
    styles: Seq<StyleView>,
    date1904: bool,
    split: F,
    r: CellRef,
    text: Option<int>,
    style: Option<int>,
)
    requires
        resolved(s, w, table, styles, date1904, split).1 is None,
        s.merges == Map::<CellRef, MergedRegion>::empty(),
        s.cells.contains_key(r),
        forall|j: int|
            0 <= j < w.merge_regions.len() && (#[trigger] w.merge_regions[j]).covers(r)
                ==> w.merge_regions[j].start == r,
        is_text_of(w.pending_shared_strings, r, text),
        is_style_of(w.pending_styles, r, style),
    ensures
        ({
            let u = resolved(s, w, table, styles, date1904, split).0;
            let value = match text {
                Some(i) => Some(
                    ValueView::Text(table[w.pending_shared_strings[i].index as int]),
                ),
                None => s.cells[r].value,
            };
            &&& u.cells.contains_key(r)
            &&& text matches Some(i) ==> w.pending_shared_strings[i].index < table.len()
            &&& style matches Some(i) ==> w.pending_styles[i].style_id < styles.len()
            &&& u.cells[r] == match style {
                Some(i) => CellView {
                    value: style::styled_value(
                        value,
                        styles[w.pending_styles[i].style_id as int].is_date_time,
                        date1904,
                        split,
                    ),
                    style: Some(styles[w.pending_styles[i].style_id as int]),
                },
                None => CellView { value, style: s.cells[r].style },
            }
        }),
{
    assert forall|q: CellRef| #[trigger] sheet::origin_of(s.merges, q) == q by {
        lemma_no_merges(q);
    }
    let t = shared_strings::texts_put(s, w.pending_shared_strings, table).0;
    shared_strings::law_other_cells_keep_their_text(s, w.pending_shared_strings, table, r);
    if let Some(i) = text {
        shared_strings::law_cells_hold_the_text_they_refer_to(
            s,
            w.pending_shared_strings,
            table,
            i,
        );
    }
    shared_strings::lemma_cells_stay(s, w.pending_shared_strings, table, r);
    let u = style::styles_put(t, w.pending_styles, styles, date1904, split).0;
    style::law_cells_without_a_style_stay(t, w.pending_styles, styles, date1904, split, r);
    style::lemma_cells_stay(t, w.pending_styles, styles, date1904, split, r);
    if let Some(i) = style {
        style::law_cells_have_the_style_they_refer_to(
            t,
            w.pending_styles,
            styles,
            date1904,
            split,
            i,
        );
    }
    let v = column_width::with_widths(u, w.col_width_ranges, w.default_col_width);
    if exists|j: int|
        0 <= j < w.merge_regions.len() && (#[trigger] w.merge_regions[j]).covers(r) {
        let j = choose|j: int|
            0 <= j < w.merge_regions.len() && (#[trigger] w.merge_regions[j]).covers(r);
        merge::law_merged_ranges_read_as_their_first_cell(v, w.merge_regions, j, r);
    } else {
        merge::law_merged_ranges_read_as_their_first_cell(v, w.merge_regions, -1, r);
    }
}

/// What a resolved sheet reads at any coordinates: within a merged range the range's
/// first cell, which is there, and elsewhere the cell itself.
pub proof fn law_resolved_sheets_read_merged_ranges_as_one<
    F: Fn(&Number) -> Option<SerialParts>,
>(
    s: SheetView,
    w: WorksheetView,
    table: Seq<Seq<char>>,
    styles: Seq<StyleView>,
    date1904: bool,
    split: F,
    i: int,
    r: CellRef,
)
    requires
        resolved(s, w, table, styles, date1904, split).1 is None,
        s.merges == Map::<CellRef, MergedRegion>::empty(),
    ensures
        ({
            let u = resolved(s, w, table, styles, date1904, split).0;
            &&& 0 <= i < w.merge_regions.len() && w.merge_regions[i].covers(r) ==> {
                let first = w.merge_regions[i].start;
                &&& sheet::origin_of(u.merges, r) == first
                &&& u.cells.contains_key(first)
                &&& u.merges.contains_key(first) && u.merges[first] == w.merge_regions[i]
                &&& r != first ==> !u.cells.contains_key(r)
            }
            &&& (forall|j: int|
                0 <= j < w.merge_regions.len() ==> !(#[trigger] w.merge_regions[j]).covers(r))
                ==> sheet::origin_of(u.merges, r) == r && !u.merges.contains_key(r)
            &&& u.hyperlinks == s.hyperlinks
            &&& u.images == s.images
            &&& u.name == s.name
            &&& u.visibility == s.visibility
        }),
{
    let t = shared_strings::texts_put(s, w.pending_shared_strings, table).0;
    let u = style::styles_put(t, w.pending_styles, styles, date1904, split).0;
    shared_strings::lemma_cells_stay(s, w.pending_shared_strings, table, r);
    style::lemma_cells_stay(t, w.pending_styles, styles, date1904, split, r);
    let v = column_width::with_widths(u, w.col_width_ranges, w.default_col_width);
    merge::law_merged_ranges_read_as_their_first_cell(v, w.merge_regions, i, r);
    merge::lemma_merges_keep_the_rest(v, w.merge_regions);
    let all = merge::merged(v, w.merge_regions);
    merge::law_accepted_merges_are_disjoint(w.merge_regions);
    if all.merges.contains_key(r) {
        let j = choose|j: int|
            0 <= j < w.merge_regions.len() && #[trigger] w.merge_regions[j] == all.merges[r]
                && w.merge_regions[j].start == r;
        assert(w.merge_regions[j].valid());
        assert(w.merge_regions[j].covers(r));
    }
}

/// What width a column of a resolved sheet has: that of the range which takes it in,
/// and the default where none does.
pub proof fn law_resolved_columns_have_their_width<F: Fn(&Number) -> Option<SerialParts>>(
    s: SheetView,
    w: WorksheetView,
    table: Seq<Seq<char>>,
    styles: Seq<StyleView>,
    date1904: bool,
    split: F,
    col: u32,
    width: Option<Seq<char>>,
)
    requires
        resolved(s, w, table, styles, date1904, split).1 is None,
        ({
            let u = resolved(s, w, table, styles, date1904, split).0;
            range::is_size_at(u.col_widths, u.default_col_width, col, width)
        }),
    ensures
        forall|i: int|
            0 <= i < w.col_width_ranges.len() && (#[trigger] w.col_width_ranges[i]).min <= col
                <= w.col_width_ranges[i].max ==> width == Some(w.col_width_ranges[i].size),
        (forall|i: int|
            0 <= i < w.col_width_ranges.len() ==> !((#[trigger] w.col_width_ranges[i]).min <= col
                <= w.col_width_ranges[i].max)) ==> width == w.default_col_width,
{
    let t = shared_strings::texts_put(s, w.pending_shared_strings, table).0;
    let u = style::styles_put(t, w.pending_styles, styles, date1904, split).0;
    let v = column_width::with_widths(u, w.col_width_ranges, w.default_col_width);
    merge::lemma_merges_keep_the_rest(v, w.merge_regions);
    assert forall|i: int|
        0 <= i < w.col_width_ranges.len() && (#[trigger] w.col_width_ranges[i]).min <= col
            <= w.col_width_ranges[i].max implies width == Some(w.col_width_ranges[i].size) by {
        column_width::law_columns_have_their_declared_width(
            w.col_width_ranges,
            w.default_col_width,
            i,
            col,
            width,
        );
    }
    if forall|i: int|
        0 <= i < w.col_width_ranges.len() ==> !((#[trigger] w.col_width_ranges[i]).min <= col
            <= w.col_width_ranges[i].max) {
        column_width::law_other_columns_have_the_default_width(
            w.col_width_ranges,
            w.default_col_width,
            col,
            width,
        );
    }
}

/// Puts in place what a worksheet refers to. `split` takes a date serial apart.
pub fn resolve_sheet<F: Fn(&Number) -> Option<SerialParts>>(
    sheet: &mut Sheet,
    pending_shared_strings: &Vec<PendingSharedString>,
    shared_string_table: &SharedStringTable,
    pending_styles: &Vec<PendingStyle>,
    stylesheet: &StyleSheet,
    date1904: bool,
    col_width_ranges: Vec<ColWidthRange>,
    default_col_width: Option<Number>,
    merge_regions: Vec<MergedRegion>,
    split: &F,
) -> (r: Result<(), Error>)
    requires
        old(sheet).wf(),
        style::splits(*split),
        shared_strings::refer_to_cells(
            old(sheet)@,
            pending_shared_strings@,
            shared_string_table@.len(),
        ),
        style::refer_to_cells(old(sheet)@, pending_styles@, stylesheet@.len()),
        sheet::merges_disjoint(old(sheet)@.merges),
        merge::clear_of(old(sheet)@.merges, merge_regions@),
    ensures
        final(sheet).wf(),
        ({
            let w = WorksheetView {
                sheet: old(sheet)@,
                pending_shared_strings: pending_shared_strings@,
                pending_styles: pending_styles@,
                col_width_ranges: range::views(col_width_ranges@),
                default_col_width: number::number_opt(default_col_width),
                merge_regions: merge_regions@,
                drawing_r_id: None,
                pending_hyperlinks: Seq::empty(),
            };
            let (t, stop) = resolved(
                old(sheet)@,
                w,
                shared_string_table@,
                stylesheet@,
                date1904,
                *split,
            );
            final(sheet)@ == t && match stop {
                Some(f) => r matches Err(e) && e@ == f,
                None => r is Ok,
            }
        }),
{
    let ghost start = sheet@;
    proof {
        shared_strings::lemma_texts_put(start, pending_shared_strings@, shared_string_table@);
    }
    match shared_strings::resolve(sheet, pending_shared_strings, shared_string_table) {
        Ok(()) => {},
        Err(e) => {
            return Err(e);
        },
    }
    let ghost texted = sheet@;
    proof {
        assert forall|i: int| #[trigger]
            style::is_reached(pending_styles@, stylesheet@.len(), i) implies
            texted.cells.contains_key(
            sheet::origin_of(texted.merges, pending_styles@[i].cell_ref),
        ) by {
            assert(start.cells.dom().contains(
                sheet::origin_of(start.merges, pending_styles@[i].cell_ref),
            ));
        }
        style::lemma_styles_put(texted, pending_styles@, stylesheet@, date1904, *split);
    }
    match style::resolve(sheet, pending_styles, stylesheet, date1904, split) {
        Ok(()) => {},
        Err(e) => {
            return Err(e);
        },
    }
    match column_width::resolve(sheet, col_width_ranges, default_col_width) {
        Ok(()) => {},
        Err(e) => {
            return Err(e);
        },
    }
    merge::resolve(sheet, merge_regions)
}

} // verus!
