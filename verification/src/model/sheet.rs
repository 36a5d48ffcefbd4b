//! One worksheet: a sparse grid of cells with merged regions, hyperlinks,
//! column widths, row heights and images.
use crate::model::cell;
use crate::model::cell::{Cell, CellRef, CellValue, CellView};
use crate::model::grid;
use crate::model::grid::GridMap;
use crate::model::range;
use crate::model::range::{ColWidthRange, RangeView, RowHeightRange};
use crate::model::region;
use crate::model::region::MergedRegion;
use crate::model::style::ResolvedStyle;
use crate::number;
use crate::number::Number;
use crate::text;
use std::sync::Arc;
use vstd::prelude::*;

verus! {

/// A position within a cell: offsets are in English Metric Units.
#[derive(Debug, Clone, Copy, PartialEq, Eq, Structural)]
pub struct AnchorMarker {
    pub cell: CellRef,
    pub col_off: i64,
    pub row_off: i64,
}

/// A size in English Metric Units.
#[derive(Debug, Clone, Copy, PartialEq, Eq, Structural)]
pub struct ImageExtent {
    pub cx: i64,
    pub cy: i64,
}

/// Where an image sits on a sheet.
#[derive(Debug, Clone, Copy, PartialEq, Eq, Structural)]
pub enum ImageAnchor {
    /// Stretched between two positions.
    TwoCell { from: AnchorMarker, to: AnchorMarker },
    /// At a position, with a size of its own.
    OneCell { from: AnchorMarker, ext: ImageExtent },
}

/// A reference to an image, anchored to cells.
#[derive(Debug, Clone, PartialEq, Eq)]
pub struct Image {
    pub anchor: ImageAnchor,
    /// The path of the media part, or the address of an outside image.
    pub target: String,
    pub hyperlink: Option<String>,
}

/// An image as contracts speak of it.
#[verifier::ext_equal]
pub struct ImageView {
    pub anchor: ImageAnchor,
    pub target: Seq<char>,
    pub hyperlink: Option<Seq<char>>,
}

impl View for Image {
    type V = ImageView;

    open spec fn view(&self) -> ImageView {
        ImageView {
            anchor: self.anchor,
            target: self.target@,
            hyperlink: text::text_opt(self.hyperlink),
        }
    }
}

/// A cell's hyperlink.
#[derive(Debug, PartialEq, Eq)]
pub struct Hyperlink {
    pub target: Option<String>,
    pub location: Option<String>,
    pub tooltip: Option<String>,
}

/// A hyperlink as contracts speak of it.
#[verifier::ext_equal]
pub struct HyperlinkView {
    pub target: Option<Seq<char>>,
    pub location: Option<Seq<char>>,
    pub tooltip: Option<Seq<char>>,
}

impl View for Hyperlink {
    type V = HyperlinkView;

    open spec fn view(&self) -> HyperlinkView {
        HyperlinkView {
            target: text::text_opt(self.target),
            location: text::text_opt(self.location),
            tooltip: text::text_opt(self.tooltip),
        }
    }
}

impl Clone for Hyperlink {
    fn clone(&self) -> (h: Hyperlink)
        ensures
            h@ == self@,
    {
        Hyperlink {
            target: text::copy_opt(&self.target),
            location: text::copy_opt(&self.location),
            tooltip: text::copy_opt(&self.tooltip),
        }
    }
}

/// A hyperlink that leads nowhere.
pub open spec fn no_hyperlink() -> HyperlinkView {
    HyperlinkView { target: None, location: None, tooltip: None }
}

impl Default for Hyperlink {
    fn default() -> (h: Hyperlink)
        ensures
            h@ == no_hyperlink(),
    {
        Hyperlink { target: None, location: None, tooltip: None }
    }
}

/// A hyperlink and the area that carries it.
#[derive(Debug, Clone, PartialEq, Eq)]
pub struct HyperlinkRange {
    pub start: CellRef,
    pub end: CellRef,
    pub hyperlink: Hyperlink,
}

/// A hyperlink range as contracts speak of it.
#[verifier::ext_equal]
pub struct LinkRangeView {
    pub area: MergedRegion,
    pub hyperlink: HyperlinkView,
}

impl View for HyperlinkRange {
    type V = LinkRangeView;

    open spec fn view(&self) -> LinkRangeView {
        LinkRangeView {
            area: MergedRegion { start: self.start, end: self.end },
            hyperlink: self.hyperlink@,
        }
    }
}

/// The views of a list of hyperlink ranges.
pub open spec fn link_views(ranges: Seq<HyperlinkRange>) -> Seq<LinkRangeView> {
    ranges.map_values(|r: HyperlinkRange| r@)
}

/// The areas of a list of hyperlink ranges.
pub open spec fn areas_of(ranges: Seq<LinkRangeView>) -> Seq<MergedRegion> {
    ranges.map_values(|r: LinkRangeView| r.area)
}

/// Whether a sheet's tab is shown.
#[derive(Debug, Clone, Copy, PartialEq, Eq, Structural)]
pub enum SheetVisibility {
    Visible,
    Hidden,
    VeryHidden,
}

/// One worksheet.
#[derive(Debug, Clone)]
pub struct Sheet {
    pub name: String,
    pub visibility: SheetVisibility,
    cells: GridMap<Cell>,
    merged_regions: GridMap<MergedRegion>,
    /// The least rectangle around all merged regions: first and last row, first
    /// and last column.
    merge_bounds: Option<(u32, u32, u32, u32)>,
    /// The last row that a cell or a merged region reaches.
    pub max_row: u32,
    /// The last column that a cell or a merged region reaches.
    pub max_col: u32,
    col_widths: Vec<ColWidthRange>,
    default_col_width: Option<Number>,
    row_heights: Vec<RowHeightRange>,
    default_row_height: Option<Number>,
    images: Vec<Image>,
    hyperlinks: GridMap<Hyperlink>,
}

/// A worksheet as contracts speak of it.
#[verifier::ext_equal]
pub struct SheetView {
    pub name: Seq<char>,
    pub visibility: SheetVisibility,
    pub cells: Map<CellRef, CellView>,
    pub merges: Map<CellRef, MergedRegion>,
    pub max_row: u32,
    pub max_col: u32,
    pub col_widths: Seq<RangeView>,
    pub default_col_width: Option<Seq<char>>,
    pub row_heights: Seq<RangeView>,
    pub default_row_height: Option<Seq<char>>,
    pub images: Seq<ImageView>,
    pub hyperlinks: Map<CellRef, HyperlinkView>,
}

impl View for Sheet {
    type V = SheetView;

    closed spec fn view(&self) -> SheetView {
        SheetView {
            name: self.name@,
            visibility: self.visibility,
            cells: self.cells@.map_values(|c: Cell| c@),
            merges: self.merged_regions@,
            max_row: self.max_row,
            max_col: self.max_col,
            col_widths: range::views(self.col_widths@),
            default_col_width: number::number_opt(self.default_col_width),
            row_heights: range::views(self.row_heights@),
            default_row_height: number::number_opt(self.default_row_height),
            images: self.images@.map_values(|i: Image| i@),
            hyperlinks: self.hyperlinks@.map_values(|h: Hyperlink| h@),
        }
    }
}

/// A sheet that nothing has been put on yet.
pub open spec fn empty_sheet(name: Seq<char>, visibility: SheetVisibility) -> SheetView {
    SheetView {
        name,
        visibility,
        cells: Map::empty(),
        merges: Map::empty(),
        max_row: 0,
        max_col: 0,
        col_widths: Seq::empty(),
        default_col_width: None,
        row_heights: Seq::empty(),
        default_row_height: None,
        images: Seq::empty(),
        hyperlinks: Map::empty(),
    }
}

pub open spec fn max_u32(a: u32, b: u32) -> u32 {
    if a >= b {
        a
    } else {
        b
    }
}

fn greater(a: u32, b: u32) -> (m: u32)
    ensures
        m == max_u32(a, b),
{
    if a >= b {
        a
    } else {
        b
    }
}

fn lesser(a: u32, b: u32) -> (m: u32)
    ensures
        m == (if a <= b {
            a
        } else {
            b
        }),
{
    if a <= b {
        a
    } else {
        b
    }
}

/// A sheet with a cell put at `r`.
pub open spec fn with_cell(s: SheetView, r: CellRef, c: CellView) -> SheetView {
    SheetView {
        cells: s.cells.insert(r, c),
        max_row: max_u32(s.max_row, r.row),
        max_col: max_u32(s.max_col, r.col),
        ..s
    }
}

/// A sheet with a blank cell put at `r`, unless there is a cell already.
pub open spec fn with_backfill(s: SheetView, r: CellRef) -> SheetView {
    if s.cells.contains_key(r) {
        s
    } else {
        with_cell(s, r, cell::blank_cell())
    }
}

/// A sheet with a merged region registered: its first cell exists, and a region
/// that began at the same cell gives way.
pub open spec fn with_merge(s: SheetView, region: MergedRegion) -> SheetView {
    let t = with_backfill(s, region.start);
    SheetView {
        merges: t.merges.insert(region.start, region),
        max_row: max_u32(t.max_row, region.end.row),
        max_col: max_u32(t.max_col, region.end.col),
        ..t
    }
}

/// A sheet with merged regions registered one after the other.
pub open spec fn with_merges(s: SheetView, regions: Seq<MergedRegion>) -> SheetView
    decreases regions.len(),
{
    if regions.len() == 0 {
        s
    } else {
        with_merge(with_merges(s, regions.drop_last()), regions.last())
    }
}

/// A sheet with blank cells put where hyperlink areas begin.
pub open spec fn with_backfills(s: SheetView, areas: Seq<MergedRegion>) -> SheetView
    decreases areas.len(),
{
    if areas.len() == 0 {
        s
    } else {
        with_backfill(with_backfills(s, areas.drop_last()), areas.last().start)
    }
}

/// Whether a merged region covers `r` without beginning there.
pub open spec fn is_covered(merges: Map<CellRef, MergedRegion>, r: CellRef) -> bool {
    exists|k: CellRef|
        #[trigger] merges.contains_key(k) && merges[k].covers(r) && merges[k].start != r
}

/// A sheet without the cells that merged regions cover, except for those in
/// which a region begins.
pub open spec fn without_covered(s: SheetView) -> SheetView {
    SheetView {
        cells: s.cells.restrict(Set::new(|r: CellRef| !is_covered(s.merges, r))),
        ..s
    }
}

/// The merged region that covers `r`, the first in row-major order.
pub open spec fn is_first_cover(
    merges: Map<CellRef, MergedRegion>,
    r: CellRef,
    k: CellRef,
) -> bool {
    &&& merges.contains_key(k)
    &&& merges[k].covers(r)
    &&& forall|j: CellRef| #[trigger]
        merges.contains_key(j) && merges[j].covers(r) ==> j == k || grid::before(k, j)
}

/// The cell that stands for `r`: where the region that covers it begins, or `r`
/// itself.
pub open spec fn origin_of(merges: Map<CellRef, MergedRegion>, r: CellRef) -> CellRef {
    if exists|k: CellRef| is_first_cover(merges, r, k) {
        merges[choose|k: CellRef| is_first_cover(merges, r, k)].start
    } else {
        r
    }
}

/// Whether every region has ordered corners and is registered where it begins.
pub open spec fn merges_wf(merges: Map<CellRef, MergedRegion>) -> bool {
    forall|k: CellRef| #[trigger]
        merges.contains_key(k) ==> merges[k].start == k && merges[k].valid()
}

/// No two regions overlap.
pub open spec fn merges_disjoint(merges: Map<CellRef, MergedRegion>) -> bool {
    forall|j: CellRef, k: CellRef|
        #![trigger merges[j], merges[k]]
        merges.contains_key(j) && merges.contains_key(k) && j != k ==> !region::overlap(
            merges[j],
            merges[k],
        )
}

impl SheetView {
    /// What holds of every sheet: regions are registered where they begin, the
    /// extent takes in every cell and region, and size ranges lie apart.
    pub open spec fn wf(self) -> bool {
        &&& merges_wf(self.merges)
        &&& forall|r: CellRef| #[trigger]
            self.cells.contains_key(r) ==> r.row <= self.max_row && r.col <= self.max_col
        &&& forall|k: CellRef| #[trigger]
            self.merges.contains_key(k) ==> self.cells.contains_key(k) && self.merges[k].end.row
                <= self.max_row && self.merges[k].end.col <= self.max_col
        &&& range::apart(self.col_widths)
        &&& range::apart(self.row_heights)
    }
}

impl Sheet {
    /// The invariant of a sheet.
    pub closed spec fn wf(&self) -> bool {
        &&& self@.wf()
        &&& match self.merge_bounds {
            None => forall|k: CellRef| !self.merged_regions@.contains_key(k),
            Some((min_row, max_row, min_col, max_col)) => forall|k: CellRef| #[trigger]
                self.merged_regions@.contains_key(k) ==> {
                    let m = self.merged_regions@[k];
                    &&& min_row <= m.start.row && m.end.row <= max_row
                    &&& min_col <= m.start.col && m.end.col <= max_col
                },
        }
    }

    /// The invariant says of a sheet's contents what [`SheetView::wf`] says.
    pub proof fn lemma_wf(&self)
        requires
            self.wf(),
        ensures
            self@.wf(),
    {
    }

    /// The name of the sheet.
    pub fn name(&self) -> (r: &str)
        ensures
            r@ == self@.name,
    {
        self.name.as_str()
    }

    /// Whether the sheet's tab is shown.
    pub fn visibility(&self) -> (r: SheetVisibility)
        ensures
            r == self@.visibility,
    {
        self.visibility
    }

    /// The last row that a cell or a merged region reaches.
    pub fn max_row(&self) -> (r: u32)
        ensures
            r == self@.max_row,
    {
        self.max_row
    }

    /// The last column that a cell or a merged region reaches.
    pub fn max_col(&self) -> (r: u32)
        ensures
            r == self@.max_col,
    {
        self.max_col
    }

    /// A sheet without cells.
    pub fn new(name: String, visibility: SheetVisibility) -> (s: Sheet)
        ensures
            s.wf(),
            s@ == empty_sheet(name@, visibility),
    {
        let s = Sheet {
            name,
            visibility,
            cells: GridMap::new(),
            merged_regions: GridMap::new(),
            merge_bounds: None,
            max_row: 0,
            max_col: 0,
            col_widths: Vec::new(),
            default_col_width: None,
            row_heights: Vec::new(),
            default_row_height: None,
            images: Vec::new(),
            hyperlinks: GridMap::new(),
        };
        proof {
            assert(s@.cells =~= Map::<CellRef, CellView>::empty());
            assert(s@.merges =~= Map::<CellRef, MergedRegion>::empty());
            assert(s@.hyperlinks =~= Map::<CellRef, HyperlinkView>::empty());
            assert(s@.col_widths =~= Seq::<RangeView>::empty());
            assert(s@.row_heights =~= Seq::<RangeView>::empty());
            assert(s@.images =~= Seq::<ImageView>::empty());
        }
        s
    }

    /// The cell that stands for `r`: where the merged region that covers it
    /// begins, or `r` itself.
    pub fn resolve_origin(&self, r: CellRef) -> (origin: CellRef)
        requires
            self.wf(),
        ensures
            origin == origin_of(self@.merges, r),
    {
        let ghost merges = self@.merges;
        match self.merge_bounds {
            None => {
                return r;
            },
            Some((min_row, max_row, min_col, max_col)) => {
                if r.row < min_row || r.row > max_row || r.col < min_col || r.col > max_col {
                    assert(forall|k: CellRef|
                        #![trigger merges.contains_key(k)]
                        merges.contains_key(k) ==> !merges[k].covers(r));
                    return r;
                }
            },
        }
        let regions: Vec<(CellRef, &MergedRegion)> = self.merged_regions.entries();
        let mut i: usize = 0;
        while i < regions.len()
            invariant
                i <= regions@.len(),
                merges == self@.merges,
                grid::lists(regions@, merges),
                merges_wf(merges),
                forall|q: int| 0 <= q < i ==> !(#[trigger] regions@[q]).1.covers(r),
            decreases regions@.len() - i,
        {
            let m: MergedRegion = *regions[i].1;
            if r.row >= m.start.row && r.row <= m.end.row && r.col >= m.start.col && r.col
                <= m.end.col {
                proof {
                    let k = regions@[i as int].0;
                    assert(is_first_cover(merges, r, k)) by {
                        assert forall|j: CellRef| #[trigger]
                            merges.contains_key(j) && merges[j].covers(r) implies j == k
                            || grid::before(k, j) by {
                            let q = choose|q: int|
                                0 <= q < regions@.len() && (#[trigger] regions@[q]).0 == j;
                            if q < i {
                                assert(!regions@[q].1.covers(r));
                            } else if q > i {
                                assert(grid::before(regions@[i as int].0, regions@[q].0));
                            }
                        }
                    }
                    let other = choose|k: CellRef| is_first_cover(merges, r, k);
                    assert(other == k);
                }
                return m.start;
            }
            i += 1;
        }
        proof {
            assert forall|k: CellRef| merges.contains_key(k) implies !(
            #[trigger] merges[k]).covers(r) by {
                let q = choose|q: int| 0 <= q < regions@.len() && (#[trigger] regions@[q]).0 == k;
                assert(!regions@[q].1.covers(r));
            }
        }
        r
    }

    /// The cell at `r`, or the one that stands for it.
    pub fn get(&self, r: CellRef) -> (c: Option<&Cell>)
        requires
            self.wf(),
        ensures
            ({
                let origin = origin_of(self@.merges, r);
                match c {
                    Some(v) => self@.cells.contains_key(origin) && v@ == self@.cells[origin],
                    None => !self@.cells.contains_key(origin),
                }
            }),
    {
        let origin: CellRef = self.resolve_origin(r);
        self.cells.get(origin)
    }

    /// Puts a cell at `r`, in place of the one that was there.
    pub fn insert_cell(&mut self, r: CellRef, cell: Cell)
        requires
            old(self).wf(),
        ensures
            final(self).wf(),
            final(self)@ == with_cell(old(self)@, r, cell@),
    {
        self.max_row = greater(self.max_row, r.row);
        self.max_col = greater(self.max_col, r.col);
        self.cells.insert(r, cell);
        proof {
            assert(self@.cells =~= old(self)@.cells.insert(r, cell@));
            assert(self@ =~= with_cell(old(self)@, r, cell@));
        }
    }

    /// Gives the cell that stands for `r` a value; `false` if there is no such
    /// cell.
    pub fn set_value(&mut self, r: CellRef, value: CellValue) -> (done: bool)
        requires
            old(self).wf(),
        ensures
            final(self).wf(),
            done == old(self)@.cells.contains_key(origin_of(old(self)@.merges, r)),
            !done ==> final(self)@ == old(self)@,
            done ==> final(self)@ == with_value(
                old(self)@,
                origin_of(old(self)@.merges, r),
                value@,
            ),
    {
        let origin: CellRef = self.resolve_origin(r);
        match self.cells.remove(origin) {
            None => {
                assert(self@ =~= old(self)@) by {
                    assert(self@.cells =~= old(self)@.cells);
                }
                false
            },
            Some(c) => {
                let style: Option<Arc<ResolvedStyle>> = c.style;
                let changed = Cell { value: Some(value), style };
                self.cells.insert(origin, changed);
                proof {
                    let target = with_value(old(self)@, origin, value@);
                    assert(old(self)@.cells[origin] == c@);
                    assert(changed@ == target.cells[origin]);
                    assert(self@.cells =~= target.cells);
                    assert(self@ =~= target);
                }
                true
            },
        }
    }

    /// Gives the cell that stands for `r` a style; `false` if there is no such
    /// cell.
    pub fn set_style(&mut self, r: CellRef, style: Arc<ResolvedStyle>) -> (done: bool)
        requires
            old(self).wf(),
        ensures
            final(self).wf(),
            done == old(self)@.cells.contains_key(origin_of(old(self)@.merges, r)),
            !done ==> final(self)@ == old(self)@,
            done ==> final(self)@ == with_style(
                old(self)@,
                origin_of(old(self)@.merges, r),
                style@,
            ),
    {
        let origin: CellRef = self.resolve_origin(r);
        match self.cells.remove(origin) {
            None => {
                assert(self@ =~= old(self)@) by {
                    assert(self@.cells =~= old(self)@.cells);
                }
                false
            },
            Some(c) => {
                let value: Option<CellValue> = c.value;
                let changed = Cell { value, style: Some(style) };
                self.cells.insert(origin, changed);
                proof {
                    let target = with_style(old(self)@, origin, style@);
                    assert(old(self)@.cells[origin] == c@);
                    assert(changed@ == target.cells[origin]);
                    assert(self@.cells =~= target.cells);
                    assert(self@ =~= target);
                }
                true
            },
        }
    }

    /// Puts a blank cell at `r`, unless there is a cell already.
    pub fn backfill_blank_cell(&mut self, r: CellRef)
        requires
            old(self).wf(),
        ensures
            final(self).wf(),
            final(self)@ == with_backfill(old(self)@, r),
    {
        let present: bool = self.cells.contains(r);
        assert(present == self@.cells.contains_key(r));
        if !present {
            self.insert_cell(r, Cell { value: None, style: None });
        }
    }

    /// Registers a merged region; its first cell is created if need be.
    pub fn insert_merge(&mut self, region: MergedRegion)
        requires
            old(self).wf(),
            region.valid(),
        ensures
            final(self).wf(),
            final(self)@ == with_merge(old(self)@, region),
    {
        self.backfill_blank_cell(region.start);
        let ghost mid = self@;
        self.merged_regions.insert(region.start, region);
        let bounds: (u32, u32, u32, u32) = match self.merge_bounds {
            Some(b) => b,
            None => (region.start.row, region.end.row, region.start.col, region.end.col),
        };
        self.merge_bounds = Some(
            (
                lesser(bounds.0, region.start.row),
                greater(bounds.1, region.end.row),
                lesser(bounds.2, region.start.col),
                greater(bounds.3, region.end.col),
            ),
        );
        self.max_row = greater(self.max_row, region.end.row);
        self.max_col = greater(self.max_col, region.end.col);
        proof {
            assert(self@.merges =~= mid.merges.insert(region.start, region));
            assert(self@ =~= with_merge(old(self)@, region));
        }
    }

    /// The merged region that begins at `origin`.
    pub fn merged_region_at(&self, origin: CellRef) -> (m: Option<&MergedRegion>)
        ensures
            match m {
                Some(v) => self@.merges.contains_key(origin) && *v == self@.merges[origin],
                None => !self@.merges.contains_key(origin),
            },
    {
        self.merged_regions.get(origin)
    }

    /// Takes out every cell that a merged region covers, except for those in
    /// which a region begins.
    pub fn finalize_merges(&mut self)
        requires
            old(self).wf(),
            merges_disjoint(old(self)@.merges),
        ensures
            final(self).wf(),
            final(self)@ == without_covered(old(self)@),
    {
        let ghost merges = self@.merges;
        if self.merged_regions.is_empty() {
            assert(self@.cells =~= without_covered(self@).cells);
            assert(self@ =~= without_covered(self@));
            return;
        }
        let (areas, coords) = self.areas_and_cells();
        let found: Vec<Option<usize>> = region::cover(&areas, &coords);
        let mut k: usize = 0;
        while k < coords.len()
            invariant
                k <= coords@.len(),
                found@.len() == coords@.len(),
                merges == old(self)@.merges,
                self@ == (SheetView { cells: self@.cells, ..old(self)@ }),
                self.merged_regions == old(self).merged_regions,
                self.merge_bounds == old(self).merge_bounds,
                merges_wf(merges),
                merges_disjoint(merges),
                areas_list(areas@, merges),
                forall|q: int|
                    0 <= q < coords@.len() ==> region::is_cover(
                        areas@,
                        coords@[q],
                        #[trigger] found@[q],
                    ),
                forall|i: int, j: int|
                    0 <= i < j < coords@.len() ==> #[trigger] coords@[i] != #[trigger] coords@[j],
                forall|r: CellRef| #[trigger]
                    self@.cells.contains_key(r) ==> old(self)@.cells.contains_key(r)
                        && self@.cells[r] == old(self)@.cells[r],
                forall|r: CellRef| #[trigger]
                    old(self)@.cells.contains_key(r) && !self@.cells.contains_key(r)
                        ==> is_covered(merges, r),
                forall|q: int|
                    0 <= q < k && self@.cells.contains_key(#[trigger] coords@[q]) ==> !is_covered(
                        merges,
                        coords@[q],
                    ),
            decreases coords@.len() - k,
        {
            let r: CellRef = coords[k];
            proof {
                lemma_cover_decides(areas@, merges, r, found@[k as int]);
            }
            if let Some(i) = found[k] {
                let start: CellRef = areas[i].start;
                if start.row != r.row || start.col != r.col {
                    let ghost prior = self@;
                    self.cells.remove(r);
                    assert(self@.cells =~= prior.cells.remove(r));
                    assert(self@ =~= (SheetView { cells: self@.cells, ..old(self)@ }));
                }
            }
            k += 1;
        }
        proof {
            assert forall|r: CellRef| #[trigger] self@.cells.contains_key(r) == without_covered(
                old(self)@,
            ).cells.contains_key(r) by {
                if old(self)@.cells.contains_key(r) {
                    let q = choose|q: int| 0 <= q < coords@.len() && #[trigger] coords@[q] == r;
                    assert(coords@[q] == r);
                }
            }
            assert(self@.cells =~= without_covered(old(self)@).cells);
            assert(self@ =~= without_covered(old(self)@));
        }
    }

    /// The merged regions, and the coordinates of the cells in row-major order.
    fn areas_and_cells(&self) -> (r: (Vec<MergedRegion>, Vec<CellRef>))
        requires
            self.wf(),
            merges_disjoint(self@.merges),
        ensures
            areas_list(r.0@, self@.merges),
            region::disjoint(r.0@),
            cells_list(r.1@, self@.cells),
    {
        let regions: Vec<(CellRef, &MergedRegion)> = self.merged_regions.entries();
        let mut areas: Vec<MergedRegion> = Vec::new();
        let mut i: usize = 0;
        while i < regions.len()
            invariant
                i <= regions@.len(),
                areas@.len() == i,
                forall|q: int| 0 <= q < i ==> #[trigger] areas@[q] == *regions@[q].1,
            decreases regions@.len() - i,
        {
            areas.push(*regions[i].1);
            i += 1;
        }
        let coords: Vec<CellRef> = self.coordinates();
        proof {
            let merges = self@.merges;
            assert forall|q: int| 0 <= q < areas@.len() implies merges.contains_key(
                (#[trigger] areas@[q]).start,
            ) && merges[areas@[q].start] == areas@[q] by {
                assert(merges.contains_key(regions@[q].0));
            }
            assert forall|k: CellRef| #[trigger] merges.contains_key(k) implies exists|q: int|
                0 <= q < areas@.len() && #[trigger] areas@[q] == merges[k] by {
                let q = choose|q: int| 0 <= q < regions@.len() && (#[trigger] regions@[q]).0 == k;
                assert(areas@[q] == merges[k]);
            }
            assert forall|a: int, b: int| 0 <= a < b < areas@.len() implies !region::overlap(
                #[trigger] areas@[a],
                #[trigger] areas@[b],
            ) by {
                let j = regions@[a].0;
                let k = regions@[b].0;
                assert(grid::before(j, k));
                assert(!region::overlap(merges[j], merges[k]));
            }
            assert forall|a: int| 0 <= a < areas@.len() implies (#[trigger] areas@[a]).valid() by {
                assert(merges.contains_key(regions@[a].0));
            }
        }
        (areas, coords)
    }

    /// The coordinates of the cells in row-major order.
    fn coordinates(&self) -> (coords: Vec<CellRef>)
        ensures
            cells_list(coords@, self@.cells),
    {
        let entries: Vec<(CellRef, &Cell)> = self.cells.entries();
        let mut coords: Vec<CellRef> = Vec::new();
        let mut i: usize = 0;
        while i < entries.len()
            invariant
                i <= entries@.len(),
                coords@.len() == i,
                forall|q: int| 0 <= q < i ==> #[trigger] coords@[q] == entries@[q].0,
            decreases entries@.len() - i,
        {
            coords.push(entries[i].0);
            i += 1;
        }
        proof {
            assert forall|a: int, b: int| 0 <= a < b < coords@.len() implies grid::before(
                #[trigger] coords@[a],
                #[trigger] coords@[b],
            ) by {
                assert(grid::before(entries@[a].0, entries@[b].0));
            }
            assert forall|r: CellRef| #[trigger] self@.cells.contains_key(r) implies exists|q: int|
                0 <= q < coords@.len() && #[trigger] coords@[q] == r by {
                assert(self.cells@.contains_key(r));
                let q = choose|q: int| 0 <= q < entries@.len() && (#[trigger] entries@[q]).0 == r;
                assert(coords@[q] == r);
            }
            assert forall|q: int| 0 <= q < coords@.len() implies self@.cells.contains_key(
                #[trigger] coords@[q],
            ) by {
                assert(self.cells@.contains_key(entries@[q].0));
            }
        }
        coords
    }

    /// Every cell with its coordinates, in row-major order.
    pub fn iter_cells(&self) -> (entries: Vec<(CellRef, &Cell)>)
        ensures
            lists_cells(entries@, self@.cells),
    {
        let entries: Vec<(CellRef, &Cell)> = self.cells.entries();
        proof {
            assert forall|i: int| 0 <= i < entries@.len() implies self@.cells.contains_key(
                (#[trigger] entries@[i]).0,
            ) && entries@[i].1@ == self@.cells[entries@[i].0] by {
                assert(self.cells@.contains_key(entries@[i].0));
            }
            assert forall|r: CellRef| #[trigger] self@.cells.contains_key(r) implies exists|i: int|
                0 <= i < entries@.len() && (#[trigger] entries@[i]).0 == r by {
                assert(self.cells@.contains_key(r));
            }
        }
        entries
    }

    /// Registers hyperlinks: each area's first cell is created if need be, and
    /// every cell that an area covers gets the area's hyperlink.
    pub fn finalize_hyperlinks(&mut self, ranges: Vec<HyperlinkRange>)
        requires
            old(self).wf(),
            region::disjoint(areas_of(link_views(ranges@))),
        ensures
            final(self).wf(),
            is_linked(old(self)@, link_views(ranges@), final(self)@),
    {
        let ghost views = link_views(ranges@);
        let ghost targets = areas_of(views);
        let mut areas: Vec<MergedRegion> = Vec::new();
        let mut i: usize = 0;
        assert(targets.take(0) =~= Seq::<MergedRegion>::empty());
        while i < ranges.len()
            invariant
                i <= ranges@.len(),
                views == link_views(ranges@),
                targets == areas_of(views),
                self.wf(),
                areas@ == targets.take(i as int),
                self@ == with_backfills(old(self)@, targets.take(i as int)),
            decreases ranges@.len() - i,
        {
            let area = MergedRegion { start: ranges[i].start, end: ranges[i].end };
            proof {
                assert(views[i as int] == ranges@[i as int]@);
                assert(targets[i as int] == area);
                assert(targets.take(i + 1).drop_last() =~= targets.take(i as int));
            }
            self.backfill_blank_cell(area.start);
            areas.push(area);
            i += 1;
            assert(areas@ =~= targets.take(i as int));
        }
        assert(targets.take(targets.len() as int) =~= targets);
        let coords: Vec<CellRef> = self.coordinates();
        let found: Vec<Option<usize>> = region::cover(&areas, &coords);
        let ghost filled = self@;
        let mut k: usize = 0;
        while k < coords.len()
            invariant
                k <= coords@.len(),
                found@.len() == coords@.len(),
                self.wf(),
                views == link_views(ranges@),
                targets == areas_of(views),
                areas@ == targets,
                region::disjoint(targets),
                cells_list(coords@, filled.cells),
                filled == with_backfills(old(self)@, targets),
                self@ == (SheetView { hyperlinks: self@.hyperlinks, ..filled }),
                forall|q: int|
                    0 <= q < coords@.len() ==> region::is_cover(
                        areas@,
                        coords@[q],
                        #[trigger] found@[q],
                    ),
                forall|q: int|
                    #![trigger coords@[q]]
                    0 <= q < k ==> is_link_at(
                        filled.hyperlinks,
                        views,
                        coords@[q],
                        self@.hyperlinks,
                    ),
                forall|r: CellRef|
                    (forall|q: int| 0 <= q < k ==> #[trigger] coords@[q] != r) ==> #[trigger]
                    same_entry(filled.hyperlinks, self@.hyperlinks, r),
            decreases coords@.len() - k,
        {
            let r: CellRef = coords[k];
            let ghost prior = self@.hyperlinks;
            let ghost sheet = self@;
            if let Some(i) = found[k] {
                let link: Hyperlink = ranges[i].hyperlink.clone();
                self.hyperlinks.insert(r, link);
                proof {
                    assert(self@.hyperlinks =~= prior.insert(r, link@));
                    assert(self@ =~= (SheetView { hyperlinks: self@.hyperlinks, ..filled }));
                    assert(self@ =~= (SheetView { hyperlinks: self@.hyperlinks, ..sheet }));
                    assert(self@.wf());
                    assert(self.wf());
                    assert(views[i as int] == ranges@[i as int]@);
                    assert(targets[i as int] == views[i as int].area);
                    lemma_link_at(filled.hyperlinks, views, r, self@.hyperlinks, i as int);
                }
            } else {
                proof {
                    assert forall|i: int| 0 <= i < views.len() implies !(
                    #[trigger] views[i]).area.covers(r) by {
                        assert(!areas@[i].covers(r));
                    }
                    assert(forall|q: int| 0 <= q < k ==> #[trigger] coords@[q] != r);
                    assert(same_entry(filled.hyperlinks, self@.hyperlinks, r));
                }
            }
            proof {
                assert forall|q: int| #![trigger coords@[q]] 0 <= q < k + 1 implies is_link_at(
                    filled.hyperlinks,
                    views,
                    coords@[q],
                    self@.hyperlinks,
                ) by {
                    if q < k {
                        assert(coords@[q] != r);
                        assert(is_link_at(filled.hyperlinks, views, coords@[q], prior));
                    }
                }
                assert forall|s: CellRef|
                    (forall|q: int| 0 <= q < k + 1 ==> #[trigger] coords@[q] != s) implies 
                #[trigger] same_entry(filled.hyperlinks, self@.hyperlinks, s) by {
                    assert(coords@[k as int] != s);
                    assert(same_entry(filled.hyperlinks, prior, s));
                }
            }
            k += 1;
        }
        proof {
            assert forall|r: CellRef| #![trigger self@.hyperlinks.contains_key(r)] filled.cells.contains_key(
                r,
            ) implies is_link_at(filled.hyperlinks, views, r, self@.hyperlinks) by {
                let q = choose|q: int| 0 <= q < coords@.len() && #[trigger] coords@[q] == r;
                assert(coords@[q] == r);
            }
            assert forall|r: CellRef| !filled.cells.contains_key(r) implies #[trigger] same_entry(
                filled.hyperlinks,
                self@.hyperlinks,
                r,
            ) by {}
        }
    }

    /// The hyperlink of the cell at `origin`.
    pub fn hyperlink_at(&self, origin: CellRef) -> (h: Option<&Hyperlink>)
        ensures
            match h {
                Some(v) => self@.hyperlinks.contains_key(origin) && v@ == self@.hyperlinks[origin],
                None => !self@.hyperlinks.contains_key(origin),
            },
    {
        self.hyperlinks.get(origin)
    }

    /// Sets the column widths.
    pub fn set_col_widths(&mut self, ranges: Vec<ColWidthRange>, default: Option<Number>)
        requires
            old(self).wf(),
            range::apart(range::views(ranges@)),
        ensures
            final(self).wf(),
            final(self)@ == (SheetView {
                col_widths: range::views(ranges@),
                default_col_width: number::number_opt(default),
                ..old(self)@
            }),
    {
        self.col_widths = ranges;
        self.default_col_width = default;
    }

    /// The width of a column.
    pub fn column_width(&self, col: u32) -> (w: Option<&Number>)
        requires
            self.wf(),
        ensures
            range::is_size_at(
                self@.col_widths,
                self@.default_col_width,
                col,
                match w {
                    Some(n) => Some(n@),
                    None => None,
                },
            ),
    {
        match range::find_range(&self.col_widths, col) {
            Some(i) => {
                assert(self@.col_widths[i as int] == self.col_widths@[i as int]@);
                Some(&self.col_widths[i].width)
            },
            None => {
                assert forall|i: int| 0 <= i < self@.col_widths.len() implies !((
                #[trigger] self@.col_widths[i]).min <= col <= self@.col_widths[i].max) by {
                    assert(self@.col_widths[i] == self.col_widths@[i]@);
                }
                self.default_col_width.as_ref()
            },
        }
    }

    /// The column width ranges, sorted.
    pub fn col_width_ranges(&self) -> (r: &Vec<ColWidthRange>)
        ensures
            range::views(r@) == self@.col_widths,
    {
        &self.col_widths
    }

    /// The width of the columns that no range covers.
    pub fn default_col_width(&self) -> (w: Option<&Number>)
        ensures
            (match w {
                Some(n) => Some(n@),
                None => None,
            }) == self@.default_col_width,
    {
        self.default_col_width.as_ref()
    }

    /// Sets the row heights.
    pub fn set_row_heights(&mut self, ranges: Vec<RowHeightRange>, default: Option<Number>)
        requires
            old(self).wf(),
            range::apart(range::views(ranges@)),
        ensures
            final(self).wf(),
            final(self)@ == (SheetView {
                row_heights: range::views(ranges@),
                default_row_height: number::number_opt(default),
                ..old(self)@
            }),
    {
        self.row_heights = ranges;
        self.default_row_height = default;
    }

    /// The height of a row.
    pub fn row_height(&self, row: u32) -> (h: Option<&Number>)
        requires
            self.wf(),
        ensures
            range::is_size_at(
                self@.row_heights,
                self@.default_row_height,
                row,
                match h {
                    Some(n) => Some(n@),
                    None => None,
                },
            ),
    {
        match range::find_range(&self.row_heights, row) {
            Some(i) => {
                assert(self@.row_heights[i as int] == self.row_heights@[i as int]@);
                Some(&self.row_heights[i].height_pt)
            },
            None => {
                assert forall|i: int| 0 <= i < self@.row_heights.len() implies !((
                #[trigger] self@.row_heights[i]).min <= row <= self@.row_heights[i].max) by {
                    assert(self@.row_heights[i] == self.row_heights@[i]@);
                }
                self.default_row_height.as_ref()
            },
        }
    }

    /// Sets the images.
    pub fn set_images(&mut self, images: Vec<Image>)
        requires
            old(self).wf(),
        ensures
            final(self).wf(),
            final(self)@ == (SheetView {
                images: images@.map_values(|i: Image| i@),
                ..old(self)@
            }),
    {
        self.images = images;
    }

    /// The images.
    pub fn images(&self) -> (r: &Vec<Image>)
        ensures
            r@.map_values(|i: Image| i@) == self@.images,
    {
        &self.images
    }
}

/// A sheet with the value of the cell at `r` replaced.
pub open spec fn with_value(s: SheetView, r: CellRef, value: cell::ValueView) -> SheetView {
    SheetView {
        cells: s.cells.insert(r, CellView { value: Some(value), style: s.cells[r].style }),
        ..s
    }
}

/// A sheet with the style of the cell at `r` replaced.
pub open spec fn with_style(
    s: SheetView,
    r: CellRef,
    style: crate::model::style::StyleView,
) -> SheetView {
    SheetView {
        cells: s.cells.insert(r, CellView { value: s.cells[r].value, style: Some(style) }),
        ..s
    }
}

/// Whether `areas` lists the regions of `merges`.
spec fn areas_list(areas: Seq<MergedRegion>, merges: Map<CellRef, MergedRegion>) -> bool {
    &&& forall|q: int|
        0 <= q < areas.len() ==> merges.contains_key((#[trigger] areas[q]).start)
            && merges[areas[q].start] == areas[q]
    &&& forall|k: CellRef| #[trigger]
        merges.contains_key(k) ==> exists|q: int|
            0 <= q < areas.len() && #[trigger] areas[q] == merges[k]
}

/// Whether `coords` lists the keys of `cells` in row-major order.
spec fn cells_list(coords: Seq<CellRef>, cells: Map<CellRef, CellView>) -> bool {
    &&& forall|i: int, j: int|
        0 <= i < j < coords.len() ==> grid::before(#[trigger] coords[i], #[trigger] coords[j])
    &&& forall|r: CellRef| #[trigger]
        cells.contains_key(r) ==> exists|q: int|
            0 <= q < coords.len() && #[trigger] coords[q] == r
    &&& forall|q: int| 0 <= q < coords.len() ==> cells.contains_key(#[trigger] coords[q])
}

/// Whether `entries` lists `cells` in row-major order, each cell once.
pub open spec fn lists_cells(
    entries: Seq<(CellRef, &Cell)>,
    cells: Map<CellRef, CellView>,
) -> bool {
    &&& forall|i: int|
        0 <= i < entries.len() ==> cells.contains_key((#[trigger] entries[i]).0) && entries[i].1@
            == cells[entries[i].0]
    &&& forall|i: int, j: int|
        0 <= i < j < entries.len() ==> grid::before(
            (#[trigger] entries[i]).0,
            (#[trigger] entries[j]).0,
        )
    &&& forall|r: CellRef| #[trigger]
        cells.contains_key(r) ==> exists|i: int|
            0 <= i < entries.len() && (#[trigger] entries[i]).0 == r
}

/// What the covering area says of a cell decides whether a region covers it.
proof fn lemma_cover_decides(
    areas: Seq<MergedRegion>,
    merges: Map<CellRef, MergedRegion>,
    r: CellRef,
    found: Option<usize>,
)
    requires
        areas_list(areas, merges),
        merges_wf(merges),
        merges_disjoint(merges),
        region::is_cover(areas, r, found),
    ensures
        match found {
            Some(i) => is_covered(merges, r) <==> areas[i as int].start != r,
            None => !is_covered(merges, r),
        },
{
    match found {
        Some(i) => {
            let start = areas[i as int].start;
            assert(merges.contains_key(start));
            if is_covered(merges, r) && start == r {
                let k = choose|k: CellRef|
                    #[trigger] merges.contains_key(k) && merges[k].covers(r) && merges[k].start
                        != r;
                assert(!region::overlap(merges[k], merges[start]));
            }
        },
        None => {
            if is_covered(merges, r) {
                let k = choose|k: CellRef|
                    #[trigger] merges.contains_key(k) && merges[k].covers(r) && merges[k].start
                        != r;
                let q = choose|q: int| 0 <= q < areas.len() && #[trigger] areas[q] == merges[k];
                assert(!areas[q].covers(r));
            }
        },
    }
}

/// Whether two maps agree at a key.
pub open spec fn same_entry(
    a: Map<CellRef, HyperlinkView>,
    b: Map<CellRef, HyperlinkView>,
    r: CellRef,
) -> bool {
    a.contains_key(r) == b.contains_key(r) && (a.contains_key(r) ==> a[r] == b[r])
}

/// Whether the cell at `r` has, in `links`, the hyperlink of the area that
/// covers it, or what it had before if none does.
pub open spec fn is_link_at(
    prior: Map<CellRef, HyperlinkView>,
    ranges: Seq<LinkRangeView>,
    r: CellRef,
    links: Map<CellRef, HyperlinkView>,
) -> bool {
    &&& forall|i: int|
        0 <= i < ranges.len() && (#[trigger] ranges[i]).area.covers(r) ==> links.contains_key(r)
            && links[r] == ranges[i].hyperlink
    &&& (forall|i: int| 0 <= i < ranges.len() ==> !(#[trigger] ranges[i]).area.covers(r))
        ==> same_entry(prior, links, r)
}

/// Whether `after` is `before` with hyperlink ranges registered.
pub open spec fn is_linked(
    before: SheetView,
    ranges: Seq<LinkRangeView>,
    after: SheetView,
) -> bool {
    let filled = with_backfills(before, areas_of(ranges));
    &&& after == (SheetView { hyperlinks: after.hyperlinks, ..filled })
    &&& forall|r: CellRef|
        #![trigger after.hyperlinks.contains_key(r)]
        filled.cells.contains_key(r) ==> is_link_at(
            filled.hyperlinks,
            ranges,
            r,
            after.hyperlinks,
        )
    &&& forall|r: CellRef|
        !filled.cells.contains_key(r) ==> #[trigger] same_entry(
            filled.hyperlinks,
            after.hyperlinks,
            r,
        )
}

/// The hyperlinks of a sheet's cells once hyperlink ranges are registered.
pub open spec fn links_after(
    filled: SheetView,
    ranges: Seq<LinkRangeView>,
) -> Map<CellRef, HyperlinkView> {
    Map::new(
        |r: CellRef|
            filled.hyperlinks.contains_key(r) || (filled.cells.contains_key(r) && is_in_link(
                ranges,
                r,
            )),
        |r: CellRef|
            if filled.cells.contains_key(r) && is_in_link(ranges, r) {
                ranges[link_over(ranges, r)].hyperlink
            } else {
                filled.hyperlinks[r]
            },
    )
}

/// Whether some hyperlink range covers `r`.
pub open spec fn is_in_link(ranges: Seq<LinkRangeView>, r: CellRef) -> bool {
    exists|i: int| 0 <= i < ranges.len() && (#[trigger] ranges[i]).area.covers(r)
}

/// The hyperlink range that covers `r`.
pub open spec fn link_over(ranges: Seq<LinkRangeView>, r: CellRef) -> int {
    choose|i: int| 0 <= i < ranges.len() && (#[trigger] ranges[i]).area.covers(r)
}

/// A sheet with hyperlink ranges registered: each area's first cell exists, and
/// every cell that an area covers has the area's hyperlink.
pub open spec fn linked(before: SheetView, ranges: Seq<LinkRangeView>) -> SheetView {
    let filled = with_backfills(before, areas_of(ranges));
    SheetView { hyperlinks: links_after(filled, ranges), ..filled }
}

/// Nothing but [`linked`] is a sheet with hyperlink ranges registered.
pub proof fn lemma_linked(before: SheetView, ranges: Seq<LinkRangeView>, after: SheetView)
    requires
        is_linked(before, ranges, after),
    ensures
        after == linked(before, ranges),
{
    let filled = with_backfills(before, areas_of(ranges));
    let links = links_after(filled, ranges);
    assert forall|r: CellRef| #[trigger] after.hyperlinks.contains_key(r) == links.contains_key(
        r,
    ) by {
        assert(!filled.cells.contains_key(r) ==> same_entry(filled.hyperlinks, after.hyperlinks, r));
        if filled.cells.contains_key(r) {
            assert(is_link_at(filled.hyperlinks, ranges, r, after.hyperlinks));
            if is_in_link(ranges, r) {
                assert(ranges[link_over(ranges, r)].area.covers(r));
            }
        }
    }
    assert forall|r: CellRef| #[trigger] after.hyperlinks.contains_key(r) implies after.hyperlinks[r]
        == links[r] by {
        assert(!filled.cells.contains_key(r) ==> same_entry(filled.hyperlinks, after.hyperlinks, r));
        if filled.cells.contains_key(r) {
            assert(is_link_at(filled.hyperlinks, ranges, r, after.hyperlinks));
            if is_in_link(ranges, r) {
                assert(ranges[link_over(ranges, r)].area.covers(r));
            }
        }
    }
    assert(after.hyperlinks =~= links);
}

proof fn lemma_link_at(
    prior: Map<CellRef, HyperlinkView>,
    ranges: Seq<LinkRangeView>,
    r: CellRef,
    links: Map<CellRef, HyperlinkView>,
    i: int,
)
    requires
        region::disjoint(areas_of(ranges)),
        0 <= i < ranges.len(),
        ranges[i].area.covers(r),
        links.contains_key(r),
        links[r] == ranges[i].hyperlink,
    ensures
        is_link_at(prior, ranges, r, links),
{
    assert forall|j: int| 0 <= j < ranges.len() && (#[trigger] ranges[j]).area.covers(
        r,
    ) implies links[r] == ranges[j].hyperlink by {
        let areas = areas_of(ranges);
        assert(areas[i] == ranges[i].area && areas[j] == ranges[j].area);
        if i < j {
            assert(!region::overlap(areas[i], areas[j]));
        } else if j < i {
            assert(!region::overlap(areas[j], areas[i]));
        }
    }
}

/// A cell within a merged region is stood for by the region's first cell.
pub proof fn law_regions_read_as_their_first_cell(
    merges: Map<CellRef, MergedRegion>,
    k: CellRef,
    r: CellRef,
)
    requires
        merges_wf(merges),
        merges_disjoint(merges),
        merges.contains_key(k),
        merges[k].covers(r),
    ensures
        origin_of(merges, r) == k,
{
    assert(is_first_cover(merges, r, k)) by {
        assert forall|j: CellRef| #[trigger]
            merges.contains_key(j) && merges[j].covers(r) implies j == k || grid::before(k, j) by {
            if j != k {
                assert(!region::overlap(merges[j], merges[k]));
            }
        }
    }
    let c = choose|c: CellRef| is_first_cover(merges, r, c);
    assert(is_first_cover(merges, r, c));
    if c != k {
        assert(!region::overlap(merges[c], merges[k]));
    }
}

/// The cell that stands for another stands for itself.
pub proof fn law_origins_stand_for_themselves(merges: Map<CellRef, MergedRegion>, r: CellRef)
    requires
        merges_wf(merges),
        merges_disjoint(merges),
    ensures
        origin_of(merges, origin_of(merges, r)) == origin_of(merges, r),
{
    if exists|k: CellRef| is_first_cover(merges, r, k) {
        let k = choose|k: CellRef| is_first_cover(merges, r, k);
        assert(merges.contains_key(k) && merges[k].start == k && merges[k].covers(k));
        law_regions_read_as_their_first_cell(merges, k, k);
    }
}

/// Taking out the covered cells does not change what is read at any coordinates.
pub proof fn law_finalizing_keeps_what_is_read(s: SheetView, r: CellRef)
    requires
        s.wf(),
        merges_disjoint(s.merges),
    ensures
        ({
            let origin = origin_of(s.merges, r);
            let t = without_covered(s);
            &&& t.merges == s.merges
            &&& t.cells.contains_key(origin) == s.cells.contains_key(origin)
            &&& s.cells.contains_key(origin) ==> t.cells[origin] == s.cells[origin]
        }),
{
    let origin = origin_of(s.merges, r);
    law_origins_stand_for_themselves(s.merges, r);
    if is_covered(s.merges, origin) {
        let k = choose|k: CellRef|
            #[trigger] s.merges.contains_key(k) && s.merges[k].covers(origin) && s.merges[k].start
                != origin;
        law_regions_read_as_their_first_cell(s.merges, k, origin);
    }
}

/// Once the covered cells are taken out, every cell that is left stands for
/// itself.
pub proof fn law_finalized_cells_are_origins(s: SheetView, r: CellRef)
    requires
        without_covered(s).cells.contains_key(r),
    ensures
        origin_of(s.merges, r) == r,
{
    if exists|k: CellRef| is_first_cover(s.merges, r, k) {
        let k = choose|k: CellRef| is_first_cover(s.merges, r, k);
        assert(s.merges.contains_key(k) && s.merges[k].covers(r));
        assert(!is_covered(s.merges, r));
    }
}

/// Once hyperlinks are registered, every cell of a hyperlink's area has it, and
/// the area's first cell exists.
pub proof fn law_linked_cells_have_their_link(
    s: SheetView,
    ranges: Seq<LinkRangeView>,
    i: int,
    r: CellRef,
)
    requires
        region::disjoint(areas_of(ranges)),
        0 <= i < ranges.len(),
        ranges[i].area.covers(r),
        linked(s, ranges).cells.contains_key(r),
    ensures
        linked(s, ranges).cells.contains_key(ranges[i].area.start),
        linked(s, ranges).hyperlinks.contains_key(r),
        linked(s, ranges).hyperlinks[r] == ranges[i].hyperlink,
{
    let areas = areas_of(ranges);
    assert(areas[i] == ranges[i].area);
    lemma_backfilled(s, areas, i);
    let j = link_over(ranges, r);
    assert(0 <= j < ranges.len() && ranges[j].area.covers(r));
    assert(areas[j] == ranges[j].area);
    if i < j {
        assert(!region::overlap(areas[i], areas[j]));
    } else if j < i {
        assert(!region::overlap(areas[j], areas[i]));
    }
}

proof fn lemma_backfilled(s: SheetView, areas: Seq<MergedRegion>, i: int)
    requires
        0 <= i < areas.len(),
    ensures
        with_backfills(s, areas).cells.contains_key(areas[i].start),
    decreases areas.len(),
{
    if i < areas.len() - 1 {
        assert(areas.drop_last()[i] == areas[i]);
        lemma_backfilled(s, areas.drop_last(), i);
    }
}

} // verus!
