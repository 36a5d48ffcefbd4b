//! A worksheet part: its cells, and what is left to be resolved later.
use crate::container::data::PartData;
use crate::error;
use crate::error::{Error, ErrorView};
use crate::model::cell;
use crate::model::cell::{Cell, CellRef, CellValue, CellView, ValueView};
use crate::model::range;
use crate::model::range::{ColWidthRange, RangeView};
use crate::model::region::MergedRegion;
use crate::model::sheet;
use crate::model::sheet::{Sheet, SheetView};
use crate::model::style::StyleId;
use crate::number;
use crate::number::Number;
use crate::parse::iso8601;
use crate::parse::part;
use crate::parse::part::PartParser;
use crate::parse::rich_text;
use crate::parse::rich_text::{RichText, RichView};
use crate::parse::xml;
use crate::parse::xml::{EventView, TagView, XmlEvent, XmlTag};
use crate::text;
use std::sync::Arc;
use vstd::prelude::*;

verus! {

/// A cell that refers to a shared string.
#[derive(Debug, Clone, Copy, PartialEq, Eq, Structural)]
pub struct PendingSharedString {
    pub cell_ref: CellRef,
    pub index: usize,
}

/// A cell that refers to a style.
#[derive(Debug, Clone, Copy, PartialEq, Eq, Structural)]
pub struct PendingStyle {
    pub cell_ref: CellRef,
    pub style_id: StyleId,
}

/// A hyperlink whose target is still an identifier.
#[derive(Debug, Clone, PartialEq, Eq)]
pub struct PendingHyperlink {
    pub start: CellRef,
    pub end: CellRef,
    pub r_id: Option<String>,
    pub location: Option<String>,
    pub tooltip: Option<String>,
}

/// A pending hyperlink as contracts speak of it.
#[verifier::ext_equal]
pub struct PendingLinkView {
    pub start: CellRef,
    pub end: CellRef,
    pub r_id: Option<Seq<char>>,
    pub location: Option<Seq<char>>,
    pub tooltip: Option<Seq<char>>,
}

impl View for PendingHyperlink {
    type V = PendingLinkView;

    open spec fn view(&self) -> PendingLinkView {
        PendingLinkView {
            start: self.start,
            end: self.end,
            r_id: text::text_opt(self.r_id),
            location: text::text_opt(self.location),
            tooltip: text::text_opt(self.tooltip),
        }
    }
}

/// The views of a list of pending hyperlinks.
pub open spec fn pending_link_views(links: Seq<PendingHyperlink>) -> Seq<PendingLinkView> {
    links.map_values(|l: PendingHyperlink| l@)
}

/// What a worksheet part says: the sheet with its cells, and what later steps
/// resolve.
#[derive(Debug)]
pub struct WorksheetParseOutput {
    pub sheet: Sheet,
    pub pending_shared_strings: Vec<PendingSharedString>,
    pub pending_styles: Vec<PendingStyle>,
    pub col_width_ranges: Vec<ColWidthRange>,
    pub default_col_width: Option<Number>,
    pub merge_regions: Vec<MergedRegion>,
    pub drawing_r_id: Option<String>,
    pub pending_hyperlinks: Vec<PendingHyperlink>,
}

/// A worksheet part as contracts speak of it.
#[verifier::ext_equal]
pub struct WorksheetView {
    pub sheet: SheetView,
    pub pending_shared_strings: Seq<PendingSharedString>,
    pub pending_styles: Seq<PendingStyle>,
    pub col_width_ranges: Seq<RangeView>,
    pub default_col_width: Option<Seq<char>>,
    pub merge_regions: Seq<MergedRegion>,
    pub drawing_r_id: Option<Seq<char>>,
    pub pending_hyperlinks: Seq<PendingLinkView>,
}

impl View for WorksheetParseOutput {
    type V = WorksheetView;

    open spec fn view(&self) -> WorksheetView {
        WorksheetView {
            sheet: self.sheet@,
            pending_shared_strings: self.pending_shared_strings@,
            pending_styles: self.pending_styles@,
            col_width_ranges: range::views(self.col_width_ranges@),
            default_col_width: number::number_opt(self.default_col_width),
            merge_regions: self.merge_regions@,
            drawing_r_id: text::text_opt(self.drawing_r_id),
            pending_hyperlinks: pending_link_views(self.pending_hyperlinks@),
        }
    }
}

// ---------------------------------------------------------------------------
// Attribute values

/// The row number that an `r` attribute of a row states.
pub open spec fn row_attr(v: Seq<char>, path: Seq<char>) -> Result<u32, ErrorView> {
    match text::unsigned_value(v, u32::MAX as int) {
        Some(n) => Ok(n as u32),
        None => Err(ErrorView::InvalidCellRef(text::complaint("row r="@, v, path))),
    }
}

/// Reads the `r` attribute of a row.
pub fn parse_row_r_attr(value: &str, path: &str) -> (r: Result<u32, Error>)
    ensures
        error::plain_result(r) == row_attr(value@, path@),
{
    let chars: Vec<char> = text::to_chars(value);
    match text::parse_unsigned(&chars, u32::MAX as u64) {
        Some(n) => Ok(n as u32),
        None => Err(Error::InvalidCellRef(text::complain("row r=", value, path))),
    }
}

/// The whole number that an attribute states.
pub open spec fn u32_attr(v: Seq<char>, name: Seq<char>, path: Seq<char>) -> Result<
    u32,
    ErrorView,
> {
    match text::unsigned_value(v, u32::MAX as int) {
        Some(n) => Ok(n as u32),
        None => Err(ErrorView::InvalidPackage(text::complaint(text::invalid_name(name), v, path))),
    }
}

/// Reads an attribute that states a whole number.
pub fn parse_u32_attr(value: &str, attr_name: &str, path: &str) -> (r: Result<u32, Error>)
    ensures
        error::plain_result(r) == u32_attr(value@, attr_name@, path@),
{
    let chars: Vec<char> = text::to_chars(value);
    match text::parse_unsigned(&chars, u32::MAX as u64) {
        Some(n) => Ok(n as u32),
        None => Err(
            Error::InvalidPackage(
                text::complain_of(attr_name, value, path),
            ),
        ),
    }
}

/// The number that an attribute states.
pub open spec fn number_attr(v: Seq<char>, name: Seq<char>, path: Seq<char>) -> Result<
    Seq<char>,
    ErrorView,
> {
    match number::number_of(v) {
        Some(n) => Ok(n),
        None => Err(ErrorView::InvalidPackage(text::complaint(text::invalid_name(name), v, path))),
    }
}

/// Reads an attribute that states a number.
pub fn parse_number_attr(value: &str, attr_name: &str, path: &str) -> (r: Result<Number, Error>)
    ensures
        error::result_view(r) == number_attr(value@, attr_name@, path@),
{
    match Number::parse(value) {
        Some(n) => Ok(n),
        None => Err(
            Error::InvalidPackage(
                text::complain_of(attr_name, value, path),
            ),
        ),
    }
}

/// The coordinates that an `A1`-style text denotes, or the error that it is.
pub open spec fn cell_at(s: Seq<char>) -> Result<CellRef, ErrorView> {
    match cell::a1_value(s) {
        Some(v) => Ok(v),
        None => Err(ErrorView::InvalidCellRef(s)),
    }
}

/// The region that a text `start:end` denotes.
pub open spec fn merge_ref(s: Seq<char>) -> Result<MergedRegion, ErrorView> {
    match s.index_of_first(':') {
        None => Err(ErrorView::InvalidCellRef(s)),
        Some(i) => match cell_at(s.take(i)) {
            Err(e) => Err(e),
            Ok(start) => match cell_at(s.skip(i + 1)) {
                Err(e) => Err(e),
                Ok(end) => Ok(MergedRegion { start, end }),
            },
        },
    }
}

/// Reads the `ref` attribute of a merged range.
pub fn parse_merge_ref(cell_range: &str) -> (r: Result<MergedRegion, Error>)
    ensures
        error::plain_result(r) == merge_ref(cell_range@),
{
    let chars: Vec<char> = text::to_chars(cell_range);
    match text::find_char(&chars, ':') {
        None => Err(Error::InvalidCellRef(cell_range.to_owned())),
        Some(i) => {
            assert(i < chars.len());
            let a: String = text::from_chars(&chars, 0, i);
            let b: String = text::from_chars(&chars, i + 1, chars.len());
            assert(a@ =~= cell_range@.take(i as int));
            assert(b@ =~= cell_range@.skip(i + 1));
            let start: CellRef = match CellRef::from_a1(a.as_str()) {
                Ok(v) => v,
                Err(e) => {
                    return Err(e);
                },
            };
            let end: CellRef = match CellRef::from_a1(b.as_str()) {
                Ok(v) => v,
                Err(e) => {
                    return Err(e);
                },
            };
            Ok(MergedRegion { start, end })
        },
    }
}

/// The corners that the `ref` attribute of a hyperlink denotes: one cell, or two
/// with a colon between.
pub open spec fn link_corners(s: Seq<char>) -> Option<(CellRef, CellRef)> {
    match s.index_of_first(':') {
        Some(i) => match (cell::a1_value(s.take(i)), cell::a1_value(s.skip(i + 1))) {
            (Some(a), Some(b)) => Some((a, b)),
            _ => None,
        },
        None => match cell::a1_value(s) {
            Some(c) => Some((c, c)),
            None => None,
        },
    }
}

/// The corners of a hyperlink, or the error that its `ref` attribute is.
pub open spec fn hyperlink_ref(s: Seq<char>, path: Seq<char>) -> Result<
    (CellRef, CellRef),
    ErrorView,
> {
    match link_corners(s) {
        Some(c) => Ok(c),
        None => Err(ErrorView::InvalidCellRef(text::complaint("hyperlink ref "@, s, path))),
    }
}

/// Reads the `ref` attribute of a hyperlink.
pub fn parse_hyperlink_ref(cell_range: &str, path: &str) -> (r: Result<(CellRef, CellRef), Error>)
    ensures
        error::plain_result(r) == hyperlink_ref(cell_range@, path@),
{
    let chars: Vec<char> = text::to_chars(cell_range);
    let corners: Option<(CellRef, CellRef)> = match text::find_char(&chars, ':') {
        Some(i) => {
            assert(i < chars.len());
            let a: String = text::from_chars(&chars, 0, i);
            let b: String = text::from_chars(&chars, i + 1, chars.len());
            assert(a@ =~= cell_range@.take(i as int));
            assert(b@ =~= cell_range@.skip(i + 1));
            match (CellRef::from_a1(a.as_str()), CellRef::from_a1(b.as_str())) {
                (Ok(start), Ok(end)) => Some((start, end)),
                _ => None,
            }
        },
        None => match CellRef::from_a1(cell_range) {
            Ok(c) => Some((c, c)),
            Err(_) => None,
        },
    };
    match corners {
        Some(c) => Ok(c),
        None => Err(Error::InvalidCellRef(text::complain("hyperlink ref ", cell_range, path))),
    }
}

// ---------------------------------------------------------------------------
// Cells

/// A cell whose end tag has not come yet.
pub struct OpenCell {
    pub cell_ref: CellRef,
    pub cell_type: Option<String>,
    pub style_id: Option<u32>,
    pub value: Option<String>,
    pub inline: Option<String>,
}

/// An open cell as contracts speak of it.
#[verifier::ext_equal]
pub struct OpenView {
    pub cell_ref: CellRef,
    pub cell_type: Option<Seq<char>>,
    pub style_id: Option<u32>,
    /// The text of the value element.
    pub value: Option<Seq<char>>,
    /// The text of the inline string.
    pub inline: Option<Seq<char>>,
}

impl View for OpenCell {
    type V = OpenView;

    open spec fn view(&self) -> OpenView {
        OpenView {
            cell_ref: self.cell_ref,
            cell_type: text::text_opt(self.cell_type),
            style_id: self.style_id,
            value: text::text_opt(self.value),
            inline: text::text_opt(self.inline),
        }
    }
}

/// The number that a cell's text denotes.
pub open spec fn cell_number(s: Seq<char>, path: Seq<char>) -> Result<Seq<char>, ErrorView> {
    match number::number_of(text::trim(s)) {
        Some(n) => Ok(n),
        None => Err(
            ErrorView::InvalidPackage(text::complaint("invalid numeric cell value "@, s, path)),
        ),
    }
}

/// Reads a cell's text as a number.
pub fn parse_number(s: &str, path: &str) -> (r: Result<Number, Error>)
    ensures
        error::result_view(r) == cell_number(s@, path@),
{
    let chars: Vec<char> = text::trimmed(s);
    match Number::from_chars(&chars) {
        Some(n) => Ok(n),
        None => Err(Error::InvalidPackage(text::complain("invalid numeric cell value ", s, path))),
    }
}

/// The value of a cell, by its type. A shared string has none yet; a type that is
/// not known makes a text.
pub open spec fn cell_value(c: OpenView, path: Seq<char>, date1904: bool) -> Result<
    Option<ValueView>,
    ErrorView,
> {
    if c.cell_type == Some("s"@) {
        Ok(None)
    } else if c.cell_type == Some("inlineStr"@) {
        match c.inline {
            Some(t) => Ok(Some(ValueView::Text(t))),
            None => Ok(None),
        }
    } else {
        match c.value {
            None => Ok(None),
            Some(s) => if c.cell_type is None || c.cell_type == Some("n"@) {
                match cell_number(s, path) {
                    Ok(n) => Ok(Some(ValueView::Number(n))),
                    Err(e) => Err(e),
                }
            } else if c.cell_type == Some("b"@) {
                Ok(Some(ValueView::Boolean(s == "1"@)))
            } else if c.cell_type == Some("e"@) {
                Ok(Some(ValueView::Error(s)))
            } else if c.cell_type == Some("d"@) {
                match iso8601::iso_value(s, date1904) {
                    Some(d) => Ok(Some(ValueView::DateTime(d))),
                    None => Err(iso8601::iso_error(s, path)),
                }
            } else {
                Ok(Some(ValueView::Text(s)))
            },
        }
    }
}

/// Makes a cell of what was read.
pub fn build_cell(c: &OpenCell, path: &str, date1904: bool) -> (r: Result<Cell, Error>)
    ensures
        (match r {
            Ok(v) => Ok(v@),
            Err(e) => Err(e@),
        }) == (match cell_value(c@, path@, date1904) {
            Ok(v) => Ok(CellView { value: v, style: None }),
            Err(e) => Err(e),
        }),
{
    if text::is_some_text(&c.cell_type, "s") {
        return Ok(Cell { value: None, style: None });
    }
    if text::is_some_text(&c.cell_type, "inlineStr") {
        return Ok(
            Cell {
                value: match &c.inline {
                    Some(t) => Some(CellValue::Text(Arc::new(t.clone()))),
                    None => None,
                },
                style: None,
            },
        );
    }
    match &c.value {
        None => Ok(Cell { value: None, style: None }),
        Some(s) => {
            let value: CellValue = if c.cell_type.is_none() || text::is_some_text(
                &c.cell_type,
                "n",
            ) {
                match parse_number(s.as_str(), path) {
                    Ok(n) => CellValue::Number(n),
                    Err(e) => {
                        return Err(e);
                    },
                }
            } else if text::is_some_text(&c.cell_type, "b") {
                CellValue::Boolean(text::same(s.as_str(), "1"))
            } else if text::is_some_text(&c.cell_type, "e") {
                CellValue::Error(s.clone())
            } else if text::is_some_text(&c.cell_type, "d") {
                match iso8601::parse_iso8601_datetime(s.as_str(), path, date1904) {
                    Ok(d) => CellValue::DateTime(d),
                    Err(e) => {
                        return Err(e);
                    },
                }
            } else {
                CellValue::Text(Arc::new(s.clone()))
            };
            Ok(Cell { value: Some(value), style: None })
        },
    }
}

// ---------------------------------------------------------------------------
// The parser

/// A leaf whose text is being gathered.
pub enum Leaf {
    Value(String),
    Formula(String),
    Inline(RichText),
}

/// An open leaf as contracts speak of it.
#[verifier::ext_equal]
pub enum LeafView {
    Value(Seq<char>),
    Formula(Seq<char>),
    Inline(RichView),
}

impl View for Leaf {
    type V = LeafView;

    open spec fn view(&self) -> LeafView {
        match *self {
            Leaf::Value(s) => LeafView::Value(s@),
            Leaf::Formula(s) => LeafView::Formula(s@),
            Leaf::Inline(r) => LeafView::Inline(r@),
        }
    }
}

/// A worksheet part being read.
pub struct WorksheetParser {
    pub date1904: bool,
    pub max_cells: usize,
    pub out: WorksheetParseOutput,
    pub cell_count: usize,
    pub cur: Option<OpenCell>,
    pub cur_row: u32,
    pub cur_col: u32,
    pub leaf: Option<Leaf>,
}

/// The state of reading a worksheet part.
#[verifier::ext_equal]
pub struct WorksheetState {
    pub date1904: bool,
    pub max_cells: usize,
    pub out: WorksheetView,
    /// How many cells have been put on the sheet.
    pub cell_count: usize,
    pub cur: Option<OpenView>,
    /// The row that a cell without coordinates is on.
    pub cur_row: u32,
    /// The column of the last cell.
    pub cur_col: u32,
    pub leaf: Option<LeafView>,
}

impl View for WorksheetParser {
    type V = WorksheetState;

    open spec fn view(&self) -> WorksheetState {
        WorksheetState {
            date1904: self.date1904,
            max_cells: self.max_cells,
            out: self.out@,
            cell_count: self.cell_count,
            cur: match self.cur {
                Some(c) => Some(c@),
                None => None,
            },
            cur_row: self.cur_row,
            cur_col: self.cur_col,
            leaf: match self.leaf {
                Some(l) => Some(l@),
                None => None,
            },
        }
    }
}

/// One more, unless that does not fit.
pub open spec fn one_more(n: usize) -> usize {
    if n == usize::MAX {
        n
    } else {
        (n + 1) as usize
    }
}

/// Counts a cell against the cap.
pub fn check_cell_count(cell_count: &mut usize, max_cells: usize, path: &str) -> (r: Result<
    (),
    Error,
>)
    ensures
        *final(cell_count) == one_more(*old(cell_count)),
        error::plain_result(r) == (if one_more(*old(cell_count)) > max_cells {
            Err(
                ErrorView::TooManyCells {
                    path: path@,
                    count: one_more(*old(cell_count)),
                    limit: max_cells,
                },
            )
        } else {
            Ok(())
        }),
{
    *cell_count = (*cell_count).saturating_add(1);
    if *cell_count > max_cells {
        return Err(
            Error::TooManyCells { path: path.to_owned(), count: *cell_count, limit: max_cells },
        );
    }
    Ok(())
}

/// Whether a cell carries nothing that is worth keeping.
pub open spec fn is_void(c: OpenView) -> bool {
    c.style_id is None && c.value is None && c.inline is None && c.cell_type != Some("s"@)
}

/// The shared string index that a cell's text states.
pub open spec fn shared_index(s: Seq<char>, path: Seq<char>) -> Result<usize, ErrorView> {
    match text::unsigned_value(text::trim(s), usize::MAX as int) {
        Some(n) => Ok(n as usize),
        None => Err(
            ErrorView::InvalidPackage(text::complaint("invalid shared string index "@, s, path)),
        ),
    }
}

fn read_shared_index(s: &str, path: &str) -> (r: Result<usize, Error>)
    ensures
        error::plain_result(r) == shared_index(s@, path@),
{
    let chars: Vec<char> = text::trimmed(s);
    match text::parse_unsigned(&chars, usize::MAX as u64) {
        Some(n) => Ok(n as usize),
        None => Err(Error::InvalidPackage(text::complain("invalid shared string index ", s, path))),
    }
}

/// What a worksheet has after a cell that carries something: the cell on the
/// sheet, and what it refers to noted.
pub open spec fn with_built(out: WorksheetView, c: OpenView, value: Option<ValueView>, index: Option<
    usize,
>) -> WorksheetView {
    WorksheetView {
        sheet: sheet::with_cell(out.sheet, c.cell_ref, CellView { value, style: None }),
        pending_shared_strings: match index {
            Some(i) => out.pending_shared_strings.push(
                PendingSharedString { cell_ref: c.cell_ref, index: i },
            ),
            None => out.pending_shared_strings,
        },
        pending_styles: match c.style_id {
            Some(s) => out.pending_styles.push(
                PendingStyle { cell_ref: c.cell_ref, style_id: s },
            ),
            None => out.pending_styles,
        },
        ..out
    }
}

/// The state after a complete cell.
pub open spec fn flushed(st: WorksheetState, c: OpenView, path: Seq<char>) -> Result<
    WorksheetState,
    ErrorView,
> {
    if is_void(c) {
        Ok(st)
    } else {
        match cell_value(c, path, st.date1904) {
            Err(e) => Err(e),
            Ok(value) => {
                let index = if c.cell_type == Some("s"@) && c.value is Some {
                    match shared_index(c.value->0, path) {
                        Ok(i) => Ok(Some(i)),
                        Err(e) => Err(e),
                    }
                } else {
                    Ok(None)
                };
                match index {
                    Err(e) => Err(e),
                    Ok(i) => if one_more(st.cell_count) > st.max_cells {
                        Err(
                            ErrorView::TooManyCells {
                                path,
                                count: one_more(st.cell_count),
                                limit: st.max_cells,
                            },
                        )
                    } else {
                        Ok(
                            WorksheetState {
                                out: with_built(st.out, c, value, i),
                                cell_count: one_more(st.cell_count),
                                ..st
                            },
                        )
                    },
                }
            },
        }
    }
}

/// The row that a row element is: the one that it states, or the next.
pub open spec fn row_of(cur_row: u32, r: Option<Seq<char>>, path: Seq<char>) -> Result<
    u32,
    ErrorView,
> {
    let n = match r {
        Some(v) => row_attr(v, path),
        None => Ok((cur_row + 1) as u32),
    };
    match n {
        Err(e) => Err(e),
        Ok(row) => if row == 0 || row > CellRef::MAX_ROW {
            Err(
                ErrorView::InvalidCellRef(
                    "row "@ + text::decimal(row as nat) + " in "@ + path,
                ),
            )
        } else {
            Ok(row)
        },
    }
}

/// The coordinates of a cell element: those that it states, or the next column
/// of the row.
pub open spec fn cell_ref_of(
    cur_row: u32,
    cur_col: u32,
    r: Option<Seq<char>>,
    path: Seq<char>,
) -> Result<CellRef, ErrorView> {
    match r {
        Some(s) => cell_at(s),
        None => if cur_row == 0 || cur_col + 1 > CellRef::MAX_COL {
            Err(
                ErrorView::InvalidCellRef(
                    "row "@ + text::decimal(cur_row as nat) + ", col "@ + text::decimal(
                        (cur_col + 1) as nat,
                    ) + " in "@ + path,
                ),
            )
        } else {
            Ok(CellRef { row: cur_row, col: (cur_col + 1) as u32 })
        },
    }
}

/// The style ID that an `s` attribute states; one that is no number is left out.
pub open spec fn style_id_of(v: Option<Seq<char>>) -> Option<u32> {
    match v {
        Some(s) => match text::unsigned_value(s, u32::MAX as int) {
            Some(n) => Some(n as u32),
            None => None,
        },
        None => None,
    }
}

/// The cell that a `c` element opens.
pub open spec fn opened_cell(st: WorksheetState, tag: TagView, path: Seq<char>) -> Result<
    OpenView,
    ErrorView,
> {
    match xml::attr_value(tag.attrs, path, "r"@) {
        Err(e) => Err(e),
        Ok(r) => match cell_ref_of(st.cur_row, st.cur_col, r, path) {
            Err(e) => Err(e),
            Ok(cell_ref) => match xml::attr_value(tag.attrs, path, "t"@) {
                Err(e) => Err(e),
                Ok(cell_type) => match xml::attr_value(tag.attrs, path, "s"@) {
                    Err(e) => Err(e),
                    Ok(s) => Ok(
                        OpenView {
                            cell_ref,
                            cell_type,
                            style_id: style_id_of(s),
                            value: None,
                            inline: None,
                        },
                    ),
                },
            },
        },
    }
}

/// The column width range that a `col` element states, if it states a width.
pub open spec fn col_range(tag: TagView, path: Seq<char>) -> Result<Option<RangeView>, ErrorView> {
    match xml::attr_value(tag.attrs, path, "width"@) {
        Err(e) => Err(e),
        Ok(None) => Ok(None),
        Ok(Some(width)) => match xml::required_value(tag.attrs, path, "min"@) {
            Err(e) => Err(e),
            Ok(min) => match u32_attr(min, "min"@, path) {
                Err(e) => Err(e),
                Ok(min) => match xml::required_value(tag.attrs, path, "max"@) {
                    Err(e) => Err(e),
                    Ok(max) => match u32_attr(max, "max"@, path) {
                        Err(e) => Err(e),
                        Ok(max) => match number_attr(width, "width"@, path) {
                            Err(e) => Err(e),
                            Ok(size) => Ok(Some(RangeView { min, max, size })),
                        },
                    },
                },
            },
        },
    }
}

/// The hyperlink that a `hyperlink` element states.
pub open spec fn link_of(tag: TagView, path: Seq<char>) -> Result<PendingLinkView, ErrorView> {
    match xml::required_value(tag.attrs, path, "ref"@) {
        Err(e) => Err(e),
        Ok(s) => match hyperlink_ref(s, path) {
            Err(e) => Err(e),
            Ok((start, end)) => match xml::attr_value(tag.attrs, path, "r:id"@) {
                Err(e) => Err(e),
                Ok(r_id) => match xml::attr_value(tag.attrs, path, "location"@) {
                    Err(e) => Err(e),
                    Ok(location) => match xml::attr_value(tag.attrs, path, "tooltip"@) {
                        Err(e) => Err(e),
                        Ok(tooltip) => Ok(
                            PendingLinkView { start, end, r_id, location, tooltip },
                        ),
                    },
                },
            },
        },
    }
}

/// The state after a `row` element.
pub open spec fn row_tag(st: WorksheetState, tag: TagView, path: Seq<char>) -> Result<
    WorksheetState,
    ErrorView,
> {
    match xml::attr_value(tag.attrs, path, "r"@) {
        Err(e) => Err(e),
        Ok(r) => match row_of(st.cur_row, r, path) {
            Err(e) => Err(e),
            Ok(row) => Ok(WorksheetState { cur_row: row, cur_col: 0, ..st }),
        },
    }
}

/// The state after a `c` element.
pub open spec fn cell_tag(st: WorksheetState, tag: TagView, empty: bool, path: Seq<char>) -> Result<
    WorksheetState,
    ErrorView,
> {
    match opened_cell(st, tag, path) {
        Err(e) => Err(e),
        Ok(c) => {
            let at = WorksheetState { cur_col: c.cell_ref.col, ..st };
            if empty {
                flushed(at, c, path)
            } else {
                Ok(WorksheetState { cur: Some(c), ..at })
            }
        },
    }
}

/// The state after an element about the sheet as a whole.
pub open spec fn sheet_tag(st: WorksheetState, tag: TagView, path: Seq<char>) -> Result<
    WorksheetState,
    ErrorView,
> {
    if tag.name == "mergeCell"@ {
        match xml::required_value(tag.attrs, path, "ref"@) {
            Err(e) => Err(e),
            Ok(s) => match merge_ref(s) {
                Err(e) => Err(e),
                Ok(m) => Ok(
                    WorksheetState {
                        out: WorksheetView {
                            merge_regions: st.out.merge_regions.push(m),
                            ..st.out
                        },
                        ..st
                    },
                ),
            },
        }
    } else if tag.name == "sheetFormatPr"@ {
        match xml::attr_value(tag.attrs, path, "defaultColWidth"@) {
            Err(e) => Err(e),
            Ok(None) => Ok(st),
            Ok(Some(w)) => match number_attr(w, "defaultColWidth"@, path) {
                Err(e) => Err(e),
                Ok(n) => Ok(
                    WorksheetState {
                        out: WorksheetView { default_col_width: Some(n), ..st.out },
                        ..st
                    },
                ),
            },
        }
    } else if tag.name == "col"@ {
        match col_range(tag, path) {
            Err(e) => Err(e),
            Ok(None) => Ok(st),
            Ok(Some(r)) => Ok(
                WorksheetState {
                    out: WorksheetView {
                        col_width_ranges: st.out.col_width_ranges.push(r),
                        ..st.out
                    },
                    ..st
                },
            ),
        }
    } else if tag.name == "drawing"@ {
        match xml::required_value(tag.attrs, path, "r:id"@) {
            Err(e) => Err(e),
            Ok(id) => Ok(
                WorksheetState {
                    out: WorksheetView { drawing_r_id: Some(id), ..st.out },
                    ..st
                },
            ),
        }
    } else if tag.name == "hyperlink"@ {
        match link_of(tag, path) {
            Err(e) => Err(e),
            Ok(l) => Ok(
                WorksheetState {
                    out: WorksheetView {
                        pending_hyperlinks: st.out.pending_hyperlinks.push(l),
                        ..st.out
                    },
                    ..st
                },
            ),
        }
    } else {
        Ok(st)
    }
}

/// The state after a start tag, or an empty-element tag, outside a leaf.
pub open spec fn body_tag(st: WorksheetState, tag: TagView, empty: bool, path: Seq<char>) -> Result<
    WorksheetState,
    ErrorView,
> {
    if tag.name == "row"@ {
        row_tag(st, tag, path)
    } else if tag.name == "c"@ {
        cell_tag(st, tag, empty, path)
    } else if !empty && st.cur is Some && tag.name == "v"@ {
        Ok(WorksheetState { leaf: Some(LeafView::Value(Seq::empty())), ..st })
    } else if !empty && st.cur is Some && tag.name == "is"@ {
        Ok(WorksheetState { leaf: Some(LeafView::Inline(rich_text::no_rich_text())), ..st })
    } else if !empty && st.cur is Some && tag.name == "f"@ {
        Ok(WorksheetState { leaf: Some(LeafView::Formula(Seq::empty())), ..st })
    } else {
        sheet_tag(st, tag, path)
    }
}

/// The state after one more event of the leaf that is open.
pub open spec fn leaf_event(
    st: WorksheetState,
    leaf: LeafView,
    ev: EventView,
    path: Seq<char>,
) -> Result<WorksheetState, ErrorView> {
    match leaf {
        LeafView::Value(s) => match rich_text::leaf_step(s, ev, path) {
            Err(e) => Err(e),
            Ok(t) => if ev is End {
                Ok(
                    WorksheetState {
                        leaf: None,
                        cur: match st.cur {
                            Some(c) => Some(OpenView { value: Some(t), ..c }),
                            None => None,
                        },
                        ..st
                    },
                )
            } else {
                Ok(WorksheetState { leaf: Some(LeafView::Value(t)), ..st })
            },
        },
        LeafView::Formula(s) => match rich_text::leaf_step(s, ev, path) {
            Err(e) => Err(e),
            Ok(t) => if ev is End {
                Ok(WorksheetState { leaf: None, ..st })
            } else {
                Ok(WorksheetState { leaf: Some(LeafView::Formula(t)), ..st })
            },
        },
        LeafView::Inline(rich) => match rich_text::rich_step(rich, ev, path) {
            Err(e) => Err(e),
            Ok(next) => if rich_text::ends_rich_text(ev) {
                Ok(
                    WorksheetState {
                        leaf: None,
                        cur: match st.cur {
                            Some(c) => Some(
                                OpenView { inline: Some(rich_text::restored(next.text)), ..c },
                            ),
                            None => None,
                        },
                        ..st
                    },
                )
            } else {
                Ok(WorksheetState { leaf: Some(LeafView::Inline(next)), ..st })
            },
        },
    }
}

/// The state after one more event.
pub open spec fn worksheet_step(st: WorksheetState, ev: EventView, path: Seq<char>) -> Result<
    WorksheetState,
    ErrorView,
> {
    match st.leaf {
        Some(leaf) => leaf_event(st, leaf, ev, path),
        None => match ev {
            EventView::Start(tag) => body_tag(st, tag, false, path),
            EventView::Empty(tag) => body_tag(st, tag, true, path),
            EventView::End(name) => if name == "c"@ && st.cur is Some {
                flushed(WorksheetState { cur: None, ..st }, st.cur->0, path)
            } else {
                Ok(st)
            },
            _ => Ok(st),
        },
    }
}

fn read_col_range(tag: &XmlTag, path: &str) -> (r: Result<Option<ColWidthRange>, Error>)
    ensures
        (match r {
            Ok(Some(c)) => Ok(Some(c@)),
            Ok(None) => Ok(None),
            Err(e) => Err(e@),
        }) == col_range(tag@, path@),
{
    let width: String = match xml::optional_attr(tag, path, "width") {
        Ok(Some(v)) => v,
        Ok(None) => {
            return Ok(None);
        },
        Err(e) => {
            return Err(e);
        },
    };
    let min: u32 = match xml::required_attr(tag, path, "min") {
        Ok(v) => match parse_u32_attr(v.as_str(), "min", path) {
            Ok(n) => n,
            Err(e) => {
                return Err(e);
            },
        },
        Err(e) => {
            return Err(e);
        },
    };
    let max: u32 = match xml::required_attr(tag, path, "max") {
        Ok(v) => match parse_u32_attr(v.as_str(), "max", path) {
            Ok(n) => n,
            Err(e) => {
                return Err(e);
            },
        },
        Err(e) => {
            return Err(e);
        },
    };
    match parse_number_attr(width.as_str(), "width", path) {
        Ok(width) => Ok(Some(ColWidthRange { min, max, width })),
        Err(e) => Err(e),
    }
}

fn read_link(tag: &XmlTag, path: &str) -> (r: Result<PendingHyperlink, Error>)
    ensures
        error::result_view(r) == link_of(tag@, path@),
{
    let (start, end): (CellRef, CellRef) = match xml::required_attr(tag, path, "ref") {
        Ok(s) => match parse_hyperlink_ref(s.as_str(), path) {
            Ok(c) => c,
            Err(e) => {
                return Err(e);
            },
        },
        Err(e) => {
            return Err(e);
        },
    };
    let r_id: Option<String> = match xml::optional_attr(tag, path, "r:id") {
        Ok(v) => v,
        Err(e) => {
            return Err(e);
        },
    };
    let location: Option<String> = match xml::optional_attr(tag, path, "location") {
        Ok(v) => v,
        Err(e) => {
            return Err(e);
        },
    };
    let tooltip: Option<String> = match xml::optional_attr(tag, path, "tooltip") {
        Ok(v) => v,
        Err(e) => {
            return Err(e);
        },
    };
    Ok(PendingHyperlink { start, end, r_id, location, tooltip })
}

impl WorksheetParser {
    fn row(&mut self, tag: &XmlTag, path: &str) -> (r: Result<(), Error>)
        requires
            old(self).inv(),
        ensures
            match row_tag(old(self)@, tag@, path@) {
                Ok(s) => r is Ok && final(self)@ == s && final(self).inv(),
                Err(f) => r matches Err(e) && e@ == f,
            },
    {
        let row: u32 = match xml::optional_attr(tag, path, "r") {
            Ok(Some(v)) => match parse_row_r_attr(v.as_str(), path) {
                Ok(n) => n,
                Err(e) => {
                    return Err(e);
                },
            },
            Ok(None) => self.cur_row + 1,
            Err(e) => {
                return Err(e);
            },
        };
        if row == 0 || row > CellRef::MAX_ROW {
            let mut m: String = text::join3("row ", text::decimal_text(row as u64).as_str(), " in ");
            text::push_text(&mut m, path);
            return Err(Error::InvalidCellRef(m));
        }
        self.cur_row = row;
        self.cur_col = 0;
        Ok(())
    }

    fn open_cell(&self, tag: &XmlTag, path: &str) -> (r: Result<OpenCell, Error>)
        requires
            self.inv(),
        ensures
            error::result_view(r) == opened_cell(self@, tag@, path@),
            r matches Ok(c) ==> c.cell_ref.col <= CellRef::MAX_COL,
    {
        let cell_ref: CellRef = match xml::optional_attr(tag, path, "r") {
            Ok(Some(s)) => match CellRef::from_a1(s.as_str()) {
                Ok(c) => c,
                Err(e) => {
                    return Err(e);
                },
            },
            Ok(None) => {
                let col: u32 = self.cur_col + 1;
                if self.cur_row == 0 || col > CellRef::MAX_COL {
                    let mut m: String = text::join3(
                        "row ",
                        text::decimal_text(self.cur_row as u64).as_str(),
                        ", col ",
                    );
                    text::push_text(&mut m, text::decimal_text(col as u64).as_str());
                    text::push_text(&mut m, " in ");
                    text::push_text(&mut m, path);
                    return Err(Error::InvalidCellRef(m));
                }
                CellRef { row: self.cur_row, col }
            },
            Err(e) => {
                return Err(e);
            },
        };
        let cell_type: Option<String> = match xml::optional_attr(tag, path, "t") {
            Ok(v) => v,
            Err(e) => {
                return Err(e);
            },
        };
        let style_id: Option<u32> = match xml::optional_attr(tag, path, "s") {
            Ok(Some(s)) => {
                let chars: Vec<char> = text::to_chars(s.as_str());
                match text::parse_unsigned(&chars, u32::MAX as u64) {
                    Some(n) => Some(n as u32),
                    None => None,
                }
            },
            Ok(None) => None,
            Err(e) => {
                return Err(e);
            },
        };
        Ok(OpenCell { cell_ref, cell_type, style_id, value: None, inline: None })
    }

    /// Puts a complete cell on the sheet, unless it carries nothing.
    pub fn flush_cell(&mut self, c: &OpenCell, path: &str) -> (r: Result<(), Error>)
        requires
            old(self).inv(),
        ensures
            match flushed(old(self)@, c@, path@) {
                Ok(s) => r is Ok && final(self)@ == s && final(self).inv(),
                Err(f) => r matches Err(e) && e@ == f,
            },
    {
        let shared: bool = text::is_some_text(&c.cell_type, "s");
        if c.style_id.is_none() && c.value.is_none() && c.inline.is_none() && !shared {
            return Ok(());
        }
        let built: Cell = match build_cell(c, path, self.date1904) {
            Ok(v) => v,
            Err(e) => {
                return Err(e);
            },
        };
        let ghost value = built@.value;
        self.out.sheet.insert_cell(c.cell_ref, built);
        let mut index: Ghost<Option<usize>> = Ghost(None);
        if shared {
            if let Some(s) = &c.value {
                match read_shared_index(s.as_str(), path) {
                    Ok(i) => {
                        self.out.pending_shared_strings.push(
                            PendingSharedString { cell_ref: c.cell_ref, index: i },
                        );
                        index = Ghost(Some(i));
                    },
                    Err(e) => {
                        return Err(e);
                    },
                }
            }
        }
        if let Some(id) = c.style_id {
            self.out.pending_styles.push(PendingStyle { cell_ref: c.cell_ref, style_id: id });
        }
        assert(self@.out =~= with_built(old(self)@.out, c@, value, index@));
        check_cell_count(&mut self.cell_count, self.max_cells, path)
    }

    fn cell(&mut self, tag: &XmlTag, empty: bool, path: &str) -> (r: Result<(), Error>)
        requires
            old(self).inv(),
            old(self)@.leaf is None,
        ensures
            match cell_tag(old(self)@, tag@, empty, path@) {
                Ok(s) => r is Ok && final(self)@ == s && final(self).inv(),
                Err(f) => r matches Err(e) && e@ == f,
            },
    {
        let c: OpenCell = match self.open_cell(tag, path) {
            Ok(c) => c,
            Err(e) => {
                return Err(e);
            },
        };
        self.cur_col = c.cell_ref.col;
        if empty {
            self.flush_cell(&c, path)
        } else {
            self.cur = Some(c);
            Ok(())
        }
    }

    fn about_sheet(&mut self, tag: &XmlTag, path: &str) -> (r: Result<(), Error>)
        requires
            old(self).inv(),
        ensures
            match sheet_tag(old(self)@, tag@, path@) {
                Ok(s) => r is Ok && final(self)@ == s && final(self).inv(),
                Err(f) => r matches Err(e) && e@ == f,
            },
    {
        let name: &str = tag.name.as_str();
        if text::same(name, "mergeCell") {
            match xml::required_attr(tag, path, "ref") {
                Ok(s) => match parse_merge_ref(s.as_str()) {
                    Ok(m) => {
                        self.out.merge_regions.push(m);
                    },
                    Err(e) => {
                        return Err(e);
                    },
                },
                Err(e) => {
                    return Err(e);
                },
            }
        } else if text::same(name, "sheetFormatPr") {
            match xml::optional_attr(tag, path, "defaultColWidth") {
                Ok(Some(w)) => match parse_number_attr(w.as_str(), "defaultColWidth", path) {
                    Ok(n) => {
                        self.out.default_col_width = Some(n);
                    },
                    Err(e) => {
                        return Err(e);
                    },
                },
                Ok(None) => {},
                Err(e) => {
                    return Err(e);
                },
            }
        } else if text::same(name, "col") {
            match read_col_range(tag, path) {
                Ok(Some(c)) => {
                    self.out.col_width_ranges.push(c);
                    assert(self@.out.col_width_ranges =~= old(self)@.out.col_width_ranges.push(c@));
                },
                Ok(None) => {},
                Err(e) => {
                    return Err(e);
                },
            }
        } else if text::same(name, "drawing") {
            match xml::required_attr(tag, path, "r:id") {
                Ok(id) => {
                    self.out.drawing_r_id = Some(id);
                },
                Err(e) => {
                    return Err(e);
                },
            }
        } else if text::same(name, "hyperlink") {
            match read_link(tag, path) {
                Ok(l) => {
                    self.out.pending_hyperlinks.push(l);
                    assert(self@.out.pending_hyperlinks =~= old(self)@.out.pending_hyperlinks.push(
                        l@,
                    ));
                },
                Err(e) => {
                    return Err(e);
                },
            }
        }
        assert(self@ =~= sheet_tag(old(self)@, tag@, path@)->Ok_0);
        Ok(())
    }

    fn body(&mut self, tag: &XmlTag, empty: bool, path: &str) -> (r: Result<(), Error>)
        requires
            old(self).inv(),
            old(self)@.leaf is None,
        ensures
            match body_tag(old(self)@, tag@, empty, path@) {
                Ok(s) => r is Ok && final(self)@ == s && final(self).inv(),
                Err(f) => r matches Err(e) && e@ == f,
            },
    {
        let name: &str = tag.name.as_str();
        if text::same(name, "row") {
            self.row(tag, path)
        } else if text::same(name, "c") {
            self.cell(tag, empty, path)
        } else if !empty && self.cur.is_some() && text::same(name, "v") {
            let s: String = String::new();
            assert(s@ =~= Seq::<char>::empty());
            self.leaf = Some(Leaf::Value(s));
            Ok(())
        } else if !empty && self.cur.is_some() && text::same(name, "is") {
            self.leaf = Some(Leaf::Inline(RichText::new()));
            Ok(())
        } else if !empty && self.cur.is_some() && text::same(name, "f") {
            let s: String = String::new();
            assert(s@ =~= Seq::<char>::empty());
            self.leaf = Some(Leaf::Formula(s));
            Ok(())
        } else {
            self.about_sheet(tag, path)
        }
    }

    fn in_leaf(&mut self, leaf: Leaf, ev: &XmlEvent, path: &str) -> (r: Result<(), Error>)
        requires
            old(self).inv(),
            old(self)@.leaf is None,
            leaf matches Leaf::Inline(rich) ==> rich.inv(),
        ensures
            match leaf_event(
                (WorksheetState { leaf: Some(leaf@), ..old(self)@ }),
                leaf@,
                ev@,
                path@,
            ) {
                Ok(s) => r is Ok && final(self)@ == s && final(self).inv(),
                Err(f) => r matches Err(e) && e@ == f,
            },
    {
        match leaf {
            Leaf::Value(mut s) => match rich_text::read_leaf_text(&mut s, ev, path) {
                Err(e) => Err(e),
                Ok(true) => {
                    if let Some(c) = self.cur.take() {
                        self.cur = Some(OpenCell { value: Some(s), ..c });
                    }
                    Ok(())
                },
                Ok(false) => {
                    self.leaf = Some(Leaf::Value(s));
                    Ok(())
                },
            },
            Leaf::Formula(mut s) => match rich_text::read_leaf_text(&mut s, ev, path) {
                Err(e) => Err(e),
                Ok(true) => Ok(()),
                Ok(false) => {
                    self.leaf = Some(Leaf::Formula(s));
                    Ok(())
                },
            },
            Leaf::Inline(mut rich) => {
                match rich.step(ev, path) {
                    Ok(()) => {},
                    Err(e) => {
                        return Err(e);
                    },
                }
                if rich_text::is_rich_end(ev) {
                    let t: String = rich.to_text();
                    if let Some(c) = self.cur.take() {
                        self.cur = Some(OpenCell { inline: Some(t), ..c });
                    }
                } else {
                    self.leaf = Some(Leaf::Inline(rich));
                }
                Ok(())
            },
        }
    }
}

impl PartParser for WorksheetParser {
    open spec fn inv(&self) -> bool {
        &&& self.out.sheet.wf()
        &&& self.cur_row <= CellRef::MAX_ROW
        &&& self.cur_col <= CellRef::MAX_COL
        &&& (self.leaf matches Some(Leaf::Inline(rich)) ==> rich.inv())
    }

    open spec fn finished(state: WorksheetState) -> bool {
        false
    }

    open spec fn advance(state: WorksheetState, ev: EventView, path: Seq<char>) -> Result<
        WorksheetState,
        ErrorView,
    > {
        worksheet_step(state, ev, path)
    }

    fn is_finished(&self) -> (r: bool) {
        false
    }

    fn step(&mut self, ev: &XmlEvent, path: &str) -> (r: Result<(), Error>) {
        match self.leaf.take() {
            Some(leaf) => self.in_leaf(leaf, ev, path),
            None => match ev {
                XmlEvent::Start(tag) => self.body(tag, false, path),
                XmlEvent::Empty(tag) => self.body(tag, true, path),
                XmlEvent::End(name) => {
                    if text::same(name.as_str(), "c") {
                        if let Some(c) = self.cur.take() {
                            return self.flush_cell(&c, path);
                        }
                    }
                    Ok(())
                },
                _ => Ok(()),
            },
        }
    }
}

/// The state before the first event.
pub open spec fn no_worksheet(s: SheetView, date1904: bool, max_cells: usize) -> WorksheetState {
    WorksheetState {
        date1904,
        max_cells,
        out: WorksheetView {
            sheet: s,
            pending_shared_strings: Seq::empty(),
            pending_styles: Seq::empty(),
            col_width_ranges: Seq::empty(),
            default_col_width: None,
            merge_regions: Seq::empty(),
            drawing_r_id: None,
            pending_hyperlinks: Seq::empty(),
        },
        cell_count: 0,
        cur: None,
        cur_row: 0,
        cur_col: 0,
        leaf: None,
    }
}

/// What a worksheet part says, starting from an empty sheet.
pub open spec fn worksheet_of(
    events: Seq<EventView>,
    path: Seq<char>,
    s: SheetView,
    date1904: bool,
    max_cells: usize,
) -> Result<WorksheetView, ErrorView> {
    match part::state_after::<WorksheetParser>(
        no_worksheet(s, date1904, max_cells),
        events,
        path,
    ) {
        Ok(s) => Ok(s.out),
        Err(e) => Err(e),
    }
}

/// Whether a list of cell references names cells of a sheet only.
pub open spec fn refs_exist(w: WorksheetView) -> bool {
    &&& forall|i: int|
        0 <= i < w.pending_shared_strings.len() ==> w.sheet.cells.contains_key(
            (#[trigger] w.pending_shared_strings[i]).cell_ref,
        )
    &&& forall|i: int|
        0 <= i < w.pending_styles.len() ==> w.sheet.cells.contains_key(
            (#[trigger] w.pending_styles[i]).cell_ref,
        )
}

/// Whether `t` is a state that may follow `st`: nothing but cells has come onto
/// the sheet, each of them counted, and what refers to a cell refers to one of
/// them.
spec fn follows(st: WorksheetState, t: WorksheetState) -> bool {
    &&& t.max_cells == st.max_cells
    &&& t.out.sheet == (SheetView {
        cells: t.out.sheet.cells,
        max_row: t.out.sheet.max_row,
        max_col: t.out.sheet.max_col,
        ..st.out.sheet
    })
    &&& refs_exist(st.out) ==> refs_exist(t.out)
    &&& st.out.sheet.wf() ==> t.out.sheet.wf()
    &&& ({
        ||| t.cell_count == st.cell_count && t.out.sheet.cells == st.out.sheet.cells
        ||| t.cell_count == one_more(st.cell_count) && t.cell_count <= t.max_cells && exists|
            r: CellRef,
        |
            t.out.sheet.cells.dom() == #[trigger] st.out.sheet.cells.dom().insert(r)
    })
}

proof fn lemma_flushed_follows(st: WorksheetState, c: OpenView, path: Seq<char>)
    requires
        flushed(st, c, path) is Ok,
    ensures
        follows(st, flushed(st, c, path)->Ok_0),
{
    let t = flushed(st, c, path)->Ok_0;
    if !is_void(c) {
        assert(t.out.sheet.cells.dom() =~= st.out.sheet.cells.dom().insert(c.cell_ref));
        if refs_exist(st.out) {
            assert forall|i: int| 0 <= i < t.out.pending_shared_strings.len() implies
                t.out.sheet.cells.contains_key(
                (#[trigger] t.out.pending_shared_strings[i]).cell_ref,
            ) by {
                if i < st.out.pending_shared_strings.len() {
                    assert(t.out.pending_shared_strings[i] == st.out.pending_shared_strings[i]);
                }
            }
            assert forall|i: int| 0 <= i < t.out.pending_styles.len() implies
                t.out.sheet.cells.contains_key((#[trigger] t.out.pending_styles[i]).cell_ref) by {
                if i < st.out.pending_styles.len() {
                    assert(t.out.pending_styles[i] == st.out.pending_styles[i]);
                }
            }
        }
    }
}

proof fn lemma_step_follows(st: WorksheetState, ev: EventView, path: Seq<char>)
    requires
        worksheet_step(st, ev, path) is Ok,
    ensures
        follows(st, worksheet_step(st, ev, path)->Ok_0),
{
    match st.leaf {
        Some(leaf) => {},
        None => match ev {
            EventView::Start(tag) => {},
            EventView::Empty(tag) => {
                if tag.name == "c"@ && tag.name != "row"@ && opened_cell(st, tag, path) is Ok {
                    let c = opened_cell(st, tag, path)->Ok_0;
                    lemma_flushed_follows(
                        WorksheetState { cur_col: c.cell_ref.col, ..st },
                        c,
                        path,
                    );
                }
            },
            EventView::End(name) => {
                if name == "c"@ && st.cur is Some {
                    lemma_flushed_follows(WorksheetState { cur: None, ..st }, st.cur->0, path);
                }
            },
            _ => {},
        },
    }
}

/// What holds of every state that reading leads to.
spec fn is_reading_of(start: SheetView, max_cells: usize, st: WorksheetState) -> bool {
    &&& st.max_cells == max_cells
    &&& st.out.sheet == (SheetView {
        cells: st.out.sheet.cells,
        max_row: st.out.sheet.max_row,
        max_col: st.out.sheet.max_col,
        ..start
    })
    &&& refs_exist(st.out)
    &&& start.wf() ==> st.out.sheet.wf()
    &&& st.cell_count <= max_cells
    &&& start.cells.dom().finite() ==> st.out.sheet.cells.dom().finite()
    &&& start.cells.dom().finite() && max_cells < usize::MAX ==> st.out.sheet.cells.dom().len()
        <= start.cells.dom().len() + st.cell_count
}

proof fn lemma_reading(
    events: Seq<EventView>,
    path: Seq<char>,
    s: SheetView,
    date1904: bool,
    max_cells: usize,
)
    ensures
        part::state_after::<WorksheetParser>(
            no_worksheet(s, date1904, max_cells),
            events,
            path,
        ) matches Ok(st) ==> is_reading_of(s, max_cells, st),
    decreases events.len(),
{
    let start = no_worksheet(s, date1904, max_cells);
    if events.len() > 0 {
        lemma_reading(events.drop_last(), path, s, date1904, max_cells);
        let before = part::state_after::<WorksheetParser>(start, events.drop_last(), path);
        if part::state_after::<WorksheetParser>(start, events, path) is Ok {
            let st = before->Ok_0;
            lemma_step_follows(st, events.last(), path);
            let t = worksheet_step(st, events.last(), path)->Ok_0;
            if t.out.sheet.cells != st.out.sheet.cells {
                let r = choose|r: CellRef|
                    t.out.sheet.cells.dom() == #[trigger] st.out.sheet.cells.dom().insert(r);
                if st.out.sheet.cells.dom().finite() {
                    assert(t.out.sheet.cells.dom() == st.out.sheet.cells.dom().insert(r));
                }
            }
        }
    }
}

/// Reading a worksheet part puts cells on the sheet and changes nothing else of
/// it but its extent, which takes them in, and what refers to a cell refers to one
/// that exists.
pub proof fn law_worksheet_brings_cells_only(
    events: Seq<EventView>,
    path: Seq<char>,
    s: SheetView,
    date1904: bool,
    max_cells: usize,
)
    ensures
        worksheet_of(events, path, s, date1904, max_cells) matches Ok(w) ==> {
            &&& w.sheet == (SheetView {
                cells: w.sheet.cells,
                max_row: w.sheet.max_row,
                max_col: w.sheet.max_col,
                ..s
            })
            &&& refs_exist(w)
            &&& s.wf() ==> w.sheet.wf()
        },
{
    lemma_reading(events, path, s, date1904, max_cells);
}

/// A sheet that was empty has no more cells after reading than the cap allows.
pub proof fn law_cells_stay_within_the_cap(
    events: Seq<EventView>,
    path: Seq<char>,
    s: SheetView,
    date1904: bool,
    max_cells: usize,
)
    requires
        s.cells == Map::<CellRef, CellView>::empty(),
        max_cells < usize::MAX,
    ensures
        worksheet_of(events, path, s, date1904, max_cells) matches Ok(w)
            ==> w.sheet.cells.dom().finite() && w.sheet.cells.dom().len() <= max_cells,
{
    assert(s.cells.dom() =~= Set::<CellRef>::empty());
    lemma_reading(events, path, s, date1904, max_cells);
}

/// Whether the cells on a sheet that were not there at the start lie on the grid
/// and have no style.
pub open spec fn new_cells_are_plain(start: SheetView, s: SheetView) -> bool {
    forall|r: CellRef| #[trigger]
        s.cells.contains_key(r) ==> {
            ||| cell::on_grid(r) && s.cells[r].style is None
            ||| start.cells.contains_key(r) && s.cells[r] == start.cells[r]
        }
}

/// Whether the merged ranges and hyperlinks of a worksheet begin and end on the
/// grid.
pub open spec fn corners_on_grid(w: WorksheetView) -> bool {
    &&& forall|i: int|
        0 <= i < w.merge_regions.len() ==> cell::on_grid((#[trigger] w.merge_regions[i]).start)
            && cell::on_grid(w.merge_regions[i].end)
    &&& forall|i: int|
        0 <= i < w.pending_hyperlinks.len() ==> cell::on_grid(
            (#[trigger] w.pending_hyperlinks[i]).start,
        ) && cell::on_grid(w.pending_hyperlinks[i].end)
}

/// What keeps a reading on the grid.
spec fn stays_on_grid(start: SheetView, st: WorksheetState) -> bool {
    &&& new_cells_are_plain(start, st.out.sheet)
    &&& corners_on_grid(st.out)
    &&& st.cur_row <= CellRef::MAX_ROW
    &&& st.cur matches Some(c) ==> cell::on_grid(c.cell_ref)
}

proof fn lemma_opened_on_grid(st: WorksheetState, tag: TagView, path: Seq<char>)
    requires
        st.cur_row <= CellRef::MAX_ROW,
        opened_cell(st, tag, path) is Ok,
    ensures
        cell::on_grid(opened_cell(st, tag, path)->Ok_0.cell_ref),
{
    match xml::attr_value(tag.attrs, path, "r"@) {
        Ok(Some(s)) => cell::lemma_a1_value_in_range(s),
        _ => {},
    }
}

proof fn lemma_merge_on_grid(s: Seq<char>)
    requires
        merge_ref(s) is Ok,
    ensures
        cell::on_grid(merge_ref(s)->Ok_0.start),
        cell::on_grid(merge_ref(s)->Ok_0.end),
{
    let i = s.index_of_first(':')->0;
    cell::lemma_a1_value_in_range(s.take(i));
    cell::lemma_a1_value_in_range(s.skip(i + 1));
}

proof fn lemma_link_on_grid(s: Seq<char>)
    requires
        link_corners(s) is Some,
    ensures
        link_corners(s) matches Some((a, b)) ==> cell::on_grid(a) && cell::on_grid(b),
{
    match s.index_of_first(':') {
        Some(i) => {
            cell::lemma_a1_value_in_range(s.take(i));
            cell::lemma_a1_value_in_range(s.skip(i + 1));
        },
        None => cell::lemma_a1_value_in_range(s),
    }
}

proof fn lemma_sheet_tag_on_grid(
    start: SheetView,
    st: WorksheetState,
    tag: TagView,
    path: Seq<char>,
)
    requires
        stays_on_grid(start, st),
        sheet_tag(st, tag, path) is Ok,
    ensures
        stays_on_grid(start, sheet_tag(st, tag, path)->Ok_0),
{
    match xml::required_value(tag.attrs, path, "ref"@) {
        Ok(s) => {
            if merge_ref(s) is Ok {
                lemma_merge_on_grid(s);
            }
            if link_corners(s) is Some {
                lemma_link_on_grid(s);
            }
        },
        Err(_) => {},
    }
}

proof fn lemma_step_on_grid(start: SheetView, st: WorksheetState, ev: EventView, path: Seq<char>)
    requires
        stays_on_grid(start, st),
        worksheet_step(st, ev, path) is Ok,
    ensures
        stays_on_grid(start, worksheet_step(st, ev, path)->Ok_0),
{
    match st.leaf {
        Some(_) => {},
        None => match ev {
            EventView::Start(tag) | EventView::Empty(tag) => {
                if sheet_tag(st, tag, path) is Ok {
                    lemma_sheet_tag_on_grid(start, st, tag, path);
                }
                if opened_cell(st, tag, path) is Ok {
                    lemma_opened_on_grid(st, tag, path);
                }
            },
            _ => {},
        },
    }
}

proof fn lemma_reading_on_grid(
    events: Seq<EventView>,
    path: Seq<char>,
    s: SheetView,
    date1904: bool,
    max_cells: usize,
)
    ensures
        part::state_after::<WorksheetParser>(
            no_worksheet(s, date1904, max_cells),
            events,
            path,
        ) matches Ok(st) ==> stays_on_grid(s, st),
    decreases events.len(),
{
    let start = no_worksheet(s, date1904, max_cells);
    if events.len() > 0 {
        lemma_reading_on_grid(events.drop_last(), path, s, date1904, max_cells);
        let before = part::state_after::<WorksheetParser>(start, events.drop_last(), path);
        if part::state_after::<WorksheetParser>(start, events, path) is Ok {
            lemma_step_on_grid(s, before->Ok_0, events.last(), path);
        }
    }
}

/// The cells that reading a worksheet part puts on the sheet lie on the grid and
/// have no style yet, and the merged ranges and hyperlinks that it states begin and
/// end on the grid.
pub proof fn law_read_cells_lie_on_the_grid(
    events: Seq<EventView>,
    path: Seq<char>,
    s: SheetView,
    date1904: bool,
    max_cells: usize,
)
    ensures
        worksheet_of(events, path, s, date1904, max_cells) matches Ok(w)
            ==> new_cells_are_plain(s, w.sheet) && corners_on_grid(w),
{
    lemma_reading_on_grid(events, path, s, date1904, max_cells);
}

/// Reads a worksheet part onto a sheet.
pub fn parse_worksheet(
    part: &PartData,
    path: &str,
    sheet: Sheet,
    date1904: bool,
    max_cells: usize,
) -> (r: Result<WorksheetParseOutput, Error>)
    requires
        sheet.wf(),
    ensures
        error::result_view(r) == worksheet_of(
            xml::part_events(part@),
            path@,
            sheet@,
            date1904,
            max_cells,
        ),
        r matches Ok(out) ==> out.sheet.wf(),
{
    let parser = WorksheetParser {
        date1904,
        max_cells,
        out: WorksheetParseOutput {
            sheet,
            pending_shared_strings: Vec::new(),
            pending_styles: Vec::new(),
            col_width_ranges: Vec::new(),
            default_col_width: None,
            merge_regions: Vec::new(),
            drawing_r_id: None,
            pending_hyperlinks: Vec::new(),
        },
        cell_count: 0,
        cur: None,
        cur_row: 0,
        cur_col: 0,
        leaf: None,
    };
    assert(parser@ =~= no_worksheet(sheet@, date1904, max_cells)) by {
        assert(parser@.out.col_width_ranges =~= Seq::<RangeView>::empty());
        assert(parser@.out.pending_hyperlinks =~= Seq::<PendingLinkView>::empty());
    }
    match part::read_part(parser, part, path) {
        Ok(p) => Ok(p.out),
        Err(e) => Err(e),
    }
}

} // verus!
