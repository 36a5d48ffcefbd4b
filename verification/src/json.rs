//! What a workbook looks like in JSON: plain records, ready to be written out.
use crate::model::cell::{Cell, CellRef, CellValue, CellView, DateTimeValue, ValueView};
use crate::model::color;
use crate::model::color::{ColorRef, ColorView};
use crate::model::sheet::{
    AnchorMarker, Hyperlink, HyperlinkView, Image, ImageAnchor, Sheet, SheetVisibility,
};
use crate::model::style::{Alignment, Borders, ResolvedStyle, StyleView};
use crate::number;
use crate::number::Number;
use crate::text;
use std::sync::Arc;
use vstd::prelude::*;

verus! {

/// A cell's value, by its kind.
#[derive(Debug, PartialEq)]
pub enum JsonCellValue {
    Number(Number),
    /// A date and time as text, without a time zone or fractions of a second.
    DateTime(String),
    Text(Arc<String>),
    Boolean(bool),
    Error(String),
    /// No value, or one that JSON has no notation for.
    Empty,
}

/// A value's record as contracts speak of it.
#[verifier::ext_equal]
pub enum JsonValueView {
    Number(Seq<char>),
    DateTime(Seq<char>),
    Text(Seq<char>),
    Boolean(bool),
    Error(Seq<char>),
    Empty,
}

impl View for JsonCellValue {
    type V = JsonValueView;

    open spec fn view(&self) -> JsonValueView {
        match *self {
            JsonCellValue::Number(n) => JsonValueView::Number(n@),
            JsonCellValue::DateTime(s) => JsonValueView::DateTime(s@),
            JsonCellValue::Text(t) => JsonValueView::Text(t@),
            JsonCellValue::Boolean(b) => JsonValueView::Boolean(b),
            JsonCellValue::Error(e) => JsonValueView::Error(e@),
            JsonCellValue::Empty => JsonValueView::Empty,
        }
    }
}

/// A color reference, by its kind.
#[derive(Debug, PartialEq)]
pub enum JsonColorRef {
    Rgb(String),
    Theme { index: u32, tint: Option<Number> },
    Indexed(u32),
}

impl View for JsonColorRef {
    type V = ColorView;

    open spec fn view(&self) -> ColorView {
        match *self {
            JsonColorRef::Rgb(s) => ColorView::Rgb(s@),
            JsonColorRef::Theme { index, tint } => ColorView::Theme {
                index,
                tint: number::number_opt(tint),
            },
            JsonColorRef::Indexed(i) => ColorView::Indexed(i),
        }
    }
}

/// The view of a color record that may be absent.
pub open spec fn json_color_opt(c: Option<JsonColorRef>) -> Option<ColorView> {
    match c {
        Some(c) => Some(c@),
        None => None,
    }
}

/// Which sides carry a border.
#[derive(Debug, Clone, Copy, PartialEq, Eq, Structural)]
pub struct JsonBorders {
    pub top: bool,
    pub right: bool,
    pub bottom: bool,
    pub left: bool,
}

/// A font.
#[derive(Debug, PartialEq)]
pub struct JsonFont {
    pub size_pt: Number,
    pub bold: bool,
}

/// A style.
#[derive(Debug, PartialEq)]
pub struct JsonStyle {
    pub font: JsonFont,
    pub wrap_text: bool,
    pub alignment: &'static str,
    pub number_format: Option<String>,
    pub fill_fg_color: Option<JsonColorRef>,
    pub fill_bg_color: Option<JsonColorRef>,
    pub borders: Option<JsonBorders>,
}

/// A style's record as contracts speak of it.
#[verifier::ext_equal]
pub struct JsonStyleView {
    pub size_pt: Seq<char>,
    pub bold: bool,
    pub wrap_text: bool,
    pub alignment: Seq<char>,
    pub number_format: Option<Seq<char>>,
    pub fill_fg_color: Option<ColorView>,
    pub fill_bg_color: Option<ColorView>,
    pub borders: Option<JsonBorders>,
}

impl View for JsonStyle {
    type V = JsonStyleView;

    open spec fn view(&self) -> JsonStyleView {
        JsonStyleView {
            size_pt: self.font.size_pt@,
            bold: self.font.bold,
            wrap_text: self.wrap_text,
            alignment: self.alignment@,
            number_format: text::text_opt(self.number_format),
            fill_fg_color: json_color_opt(self.fill_fg_color),
            fill_bg_color: json_color_opt(self.fill_bg_color),
            borders: self.borders,
        }
    }
}

/// A hyperlink.
#[derive(Debug, PartialEq, Eq)]
pub struct JsonHyperlink {
    pub target: Option<String>,
    pub location: Option<String>,
    pub tooltip: Option<String>,
}

impl View for JsonHyperlink {
    type V = HyperlinkView;

    open spec fn view(&self) -> HyperlinkView {
        HyperlinkView {
            target: text::text_opt(self.target),
            location: text::text_opt(self.location),
            tooltip: text::text_opt(self.tooltip),
        }
    }
}

/// A cell.
#[derive(Debug, PartialEq)]
pub struct JsonCell {
    pub row: u32,
    pub col: u32,
    pub value: JsonCellValue,
    pub row_span: u32,
    pub col_span: u32,
    pub style: Option<JsonStyle>,
    pub hyperlink: Option<JsonHyperlink>,
}

/// A cell's record as contracts speak of it.
#[verifier::ext_equal]
pub struct JsonCellView {
    pub row: u32,
    pub col: u32,
    pub value: JsonValueView,
    pub row_span: int,
    pub col_span: int,
    pub style: Option<JsonStyleView>,
    pub hyperlink: Option<HyperlinkView>,
}

impl View for JsonCell {
    type V = JsonCellView;

    open spec fn view(&self) -> JsonCellView {
        JsonCellView {
            row: self.row,
            col: self.col,
            value: self.value@,
            row_span: self.row_span as int,
            col_span: self.col_span as int,
            style: match self.style {
                Some(s) => Some(s@),
                None => None,
            },
            hyperlink: match self.hyperlink {
                Some(h) => Some(h@),
                None => None,
            },
        }
    }
}

/// A position within a cell.
#[derive(Debug, Clone, Copy, PartialEq, Eq, Structural)]
pub struct JsonMarker {
    pub row: u32,
    pub col: u32,
    pub col_off: i64,
    pub row_off: i64,
}

/// A size.
#[derive(Debug, Clone, Copy, PartialEq, Eq, Structural)]
pub struct JsonExtent {
    pub cx: i64,
    pub cy: i64,
}

/// Where an image sits, by its kind.
#[derive(Debug, Clone, Copy, PartialEq, Eq, Structural)]
pub enum JsonAnchor {
    TwoCell { from: JsonMarker, to: JsonMarker },
    OneCell { from: JsonMarker, ext: JsonExtent },
}

/// An image.
#[derive(Debug, PartialEq, Eq)]
pub struct JsonImage {
    pub anchor: JsonAnchor,
    pub target: String,
    pub hyperlink: Option<String>,
}

/// Whether a number is one.
pub fn is_one(n: &u32) -> (r: bool)
    ensures
        r == (*n == 1),
{
    *n == 1
}

/// The record of a hyperlink.
pub fn hyperlink_to_json(h: &Hyperlink) -> (j: JsonHyperlink)
    ensures
        j@ == h@,
{
    JsonHyperlink {
        target: text::copy_opt(&h.target),
        location: text::copy_opt(&h.location),
        tooltip: text::copy_opt(&h.tooltip),
    }
}

/// The record of borders; none if no side carries one.
pub open spec fn borders_record(b: Borders) -> Option<JsonBorders> {
    if b.top || b.right || b.bottom || b.left {
        Some(JsonBorders { top: b.top, right: b.right, bottom: b.bottom, left: b.left })
    } else {
        None
    }
}

/// The record of borders; none if no side carries one.
pub fn borders_to_json(b: &Borders) -> (j: Option<JsonBorders>)
    ensures
        j == borders_record(*b),
{
    if b.any() {
        Some(JsonBorders { top: b.top, right: b.right, bottom: b.bottom, left: b.left })
    } else {
        None
    }
}

/// The record of a color reference.
pub fn color_ref_to_json(c: &ColorRef) -> (j: JsonColorRef)
    ensures
        j@ == c@,
{
    match c {
        ColorRef::Rgb(s) => JsonColorRef::Rgb(s.clone()),
        ColorRef::Theme { index, tint } => JsonColorRef::Theme {
            index: *index,
            tint: match tint {
                Some(t) => Some(t.clone()),
                None => None,
            },
        },
        ColorRef::Indexed(i) => JsonColorRef::Indexed(*i),
    }
}

fn color_opt_to_json(c: &Option<ColorRef>) -> (j: Option<JsonColorRef>)
    ensures
        json_color_opt(j) == color::color_opt(*c),
{
    match c {
        Some(c) => Some(color_ref_to_json(c)),
        None => None,
    }
}

/// The name of an alignment.
pub open spec fn alignment_name(a: Alignment) -> Seq<char> {
    match a {
        Alignment::General => "general"@,
        Alignment::Left => "left"@,
        Alignment::Center => "center"@,
        Alignment::Right => "right"@,
        Alignment::Fill => "fill"@,
        Alignment::Justify => "justify"@,
        Alignment::CenterContinuous => "centerContinuous"@,
        Alignment::Distributed => "distributed"@,
    }
}

/// The name of an alignment.
pub fn alignment_tag(a: Alignment) -> (s: &'static str)
    ensures
        s@ == alignment_name(a),
{
    match a {
        Alignment::General => "general",
        Alignment::Left => "left",
        Alignment::Center => "center",
        Alignment::Right => "right",
        Alignment::Fill => "fill",
        Alignment::Justify => "justify",
        Alignment::CenterContinuous => "centerContinuous",
        Alignment::Distributed => "distributed",
    }
}

/// The name of a visibility.
pub open spec fn visibility_name(v: SheetVisibility) -> Seq<char> {
    match v {
        SheetVisibility::Visible => "visible"@,
        SheetVisibility::Hidden => "hidden"@,
        SheetVisibility::VeryHidden => "veryHidden"@,
    }
}

/// The name of a visibility.
pub fn visibility_tag(v: SheetVisibility) -> (s: &'static str)
    ensures
        s@ == visibility_name(v),
{
    match v {
        SheetVisibility::Visible => "visible",
        SheetVisibility::Hidden => "hidden",
        SheetVisibility::VeryHidden => "veryHidden",
    }
}

/// A text with zeros put in front until it is `width` long.
pub open spec fn zero_padded(s: Seq<char>, width: nat) -> Seq<char>
    decreases width - s.len(),
{
    if s.len() >= width {
        s
    } else {
        zero_padded(seq!['0'] + s, width)
    }
}

/// A number in decimal notation, with zeros put in front until it is `width` long,
/// its sign counted.
pub open spec fn padded(n: int, width: nat) -> Seq<char> {
    if n < 0 {
        seq!['-'] + zero_padded(text::decimal((-n) as nat), (width - 1) as nat)
    } else {
        zero_padded(text::decimal(n as nat), width)
    }
}

fn push_padded(out: &mut String, n: i64, width: usize)
    requires
        0 < width,
    ensures
        final(out)@ == old(out)@ + padded(n as int, width as nat),
{
    let mut digits: String;
    let mut room: usize = width;
    if n < 0 {
        out.push('-');
        digits = text::decimal_text(magnitude(n));
        room = width - 1;
    } else {
        digits = text::decimal_text(n as u64);
    }
    let ghost plain = digits@;
    let ghost head = out@;
    let mut chars: usize = text::to_chars(digits.as_str()).len();
    while chars < room
        invariant
            chars == digits@.len(),
            zero_padded(digits@, room as nat) == zero_padded(plain, room as nat),
        decreases room - chars,
    {
        digits = text::join2("0", digits.as_str());
        proof {
            reveal_strlit("0");
            assert("0"@ =~= seq!['0']);
        }
        chars += 1;
    }
    text::push_text(out, digits.as_str());
    assert(out@ =~= old(out)@ + padded(n as int, width as nat));
}

fn magnitude(n: i64) -> (m: u64)
    requires
        n < 0,
    ensures
        m == -n,
{
    if n == i64::MIN {
        0x8000_0000_0000_0000
    } else {
        (-n) as u64
    }
}

/// `year-month-dayThour:minute:second`, each with its leading zeros.
pub open spec fn date_time_text(t: DateTimeValue) -> Seq<char> {
    padded(t.year as int, 4) + "-"@ + padded(t.month as int, 2) + "-"@ + padded(t.day as int, 2)
        + "T"@ + padded(t.hour as int, 2) + ":"@ + padded(t.minute as int, 2) + ":"@ + padded(
        t.second as int,
        2,
    )
}

/// A date and time in ISO 8601 notation, without a time zone or fractions of a
/// second.
pub fn format_date_time(dt: &DateTimeValue) -> (s: String)
    ensures
        s@ == date_time_text(*dt),
{
    let mut s: String = String::new();
    push_padded(&mut s, dt.year as i64, 4);
    text::push_text(&mut s, "-");
    push_padded(&mut s, dt.month as i64, 2);
    text::push_text(&mut s, "-");
    push_padded(&mut s, dt.day as i64, 2);
    text::push_text(&mut s, "T");
    push_padded(&mut s, dt.hour as i64, 2);
    text::push_text(&mut s, ":");
    push_padded(&mut s, dt.minute as i64, 2);
    text::push_text(&mut s, ":");
    push_padded(&mut s, dt.second as i64, 2);
    assert(s@ =~= date_time_text(*dt));
    s
}

proof fn lemma_zero_padded(s: Seq<char>, width: nat)
    requires
        s.len() > 0,
        text::all_digits(s),
    ensures
        zero_padded(s, width).len() > 0,
        text::all_digits(zero_padded(s, width)),
        text::digits_value(zero_padded(s, width)) == text::digits_value(s),
    decreases width - s.len(),
{
    if s.len() < width {
        lemma_leading_zero(s);
        lemma_zero_padded(seq!['0'] + s, width);
    }
}

proof fn lemma_leading_zero(s: Seq<char>)
    ensures
        text::digits_value(seq!['0'] + s) == text::digits_value(s),
    decreases s.len(),
{
    let t = seq!['0'] + s;
    if s.len() == 0 {
        assert(t.drop_last() =~= s);
    } else {
        assert(t.drop_last() =~= seq!['0'] + s.drop_last());
        lemma_leading_zero(s.drop_last());
    }
}

/// Whether a text consists of digits, `c` perhaps among them.
pub open spec fn digits_but(s: Seq<char>, c: char) -> bool {
    forall|i: int| 0 <= i < s.len() ==> text::is_digit(#[trigger] s[i]) || s[i] == c
}

/// What a padded number is to a reader.
pub proof fn lemma_padded(n: int, width: nat, max: int, c: char)
    requires
        0 <= n <= max,
    ensures
        text::unsigned_value(padded(n, width), max) == Some(n),
        digits_but(padded(n, width), c),
        !text::is_digit(c) ==> !padded(n, width).contains(c),
{
    text::lemma_decimal_value(n as nat);
    lemma_zero_padded(text::decimal(n as nat), width);
    assert(text::is_digit(padded(n, width)[0]));
}

/// Three numbers with a separator between each two split into just these.
pub proof fn lemma_three_pieces(a: Seq<char>, b: Seq<char>, c: Seq<char>, sep: char)
    requires
        !a.contains(sep),
        !b.contains(sep),
        !c.contains(sep),
    ensures
        text::split(a + seq![sep] + b + seq![sep] + c, sep) == seq![a, b, c],
{
    text::lemma_split_one_piece(a, sep);
    text::lemma_split_one_piece(b, sep);
    text::lemma_split_one_piece(c, sep);
    text::lemma_split_joined(a, b, sep);
    text::lemma_split_joined(a + seq![sep] + b, c, sep);
    assert(seq![a] + seq![b] + seq![c] =~= seq![a, b, c]);
}

proof fn lemma_no_sign(s: Seq<char>)
    requires
        digits_but(s, ':'),
    ensures
        crate::parse::iso8601::last_sign(s) == -1,
    decreases s.len(),
{
    if s.len() > 0 {
        lemma_no_sign(s.drop_last());
    }
}

/// A date and time that is written down reads as the same date and time. A year
/// before the year zero has a sign, which no reader takes.
pub proof fn law_written_dates_read_back(t: DateTimeValue, date1904: bool)
    requires
        0 <= t.year,
        1 <= t.month <= 12,
        1 <= t.day <= 31,
        t.hour <= 23,
        t.minute <= 59,
        t.second <= 59,
    ensures
        crate::parse::iso8601::iso_value(date_time_text(t), date1904) == Some(t),
{
    let (y, m, d) = (padded(t.year as int, 4), padded(t.month as int, 2), padded(t.day as int, 2));
    let (h, i, s) = (
        padded(t.hour as int, 2),
        padded(t.minute as int, 2),
        padded(t.second as int, 2),
    );
    lemma_padded(t.year as int, 4, i32::MAX as int, '-');
    lemma_padded(t.month as int, 2, u8::MAX as int, '-');
    lemma_padded(t.day as int, 2, u8::MAX as int, '-');
    lemma_padded(t.hour as int, 2, u8::MAX as int, ':');
    lemma_padded(t.minute as int, 2, u8::MAX as int, ':');
    lemma_padded(t.second as int, 2, u8::MAX as int, ':');
    let day = y + seq!['-'] + m + seq!['-'] + d;
    let clock = h + seq![':'] + i + seq![':'] + s;
    let all = date_time_text(t);
    reveal_strlit("-");
    reveal_strlit("T");
    reveal_strlit(":");
    assert("-"@ =~= seq!['-'] && "T"@ =~= seq!['T'] && ":"@ =~= seq![':']);
    assert(all =~= day + seq!['T'] + clock);
    assert(digits_but(day, '-'));
    assert(digits_but(clock, ':'));
    all.index_of_first_ensures('T');
    assert(all[day.len() as int] == 'T');
    assert(all.index_of_first('T') == Some(day.len() as int)) by {
        let k = all.index_of_first('T')->0;
        if k < day.len() {
            assert(all[k] == day[k]);
        }
    }
    assert(all.take(day.len() as int) =~= day);
    assert(all.skip(day.len() as int + 1) =~= clock);
    lemma_three_pieces(y, m, d, '-');
    lemma_no_sign(clock);
    assert(clock.last() == s.last());
    lemma_three_pieces(h, i, s, ':');
    lemma_padded(t.second as int, 2, u8::MAX as int, '.');
    s.index_of_first_ensures('.');
}

/// The record of a value. A number that is not finite counts as no value.
pub open spec fn value_record(value: Option<ValueView>, is_finite: bool) -> JsonValueView {
    match value {
        None => JsonValueView::Empty,
        Some(ValueView::Number(n)) => if is_finite {
            JsonValueView::Number(n)
        } else {
            JsonValueView::Empty
        },
        Some(ValueView::DateTime(t)) => JsonValueView::DateTime(date_time_text(t)),
        Some(ValueView::Text(t)) => JsonValueView::Text(t),
        Some(ValueView::Boolean(b)) => JsonValueView::Boolean(b),
        Some(ValueView::Error(e)) => JsonValueView::Error(e),
    }
}

/// The record of a value. `is_finite` says whether the value, if it is a number,
/// is finite.
pub fn cell_value_to_json(value: &Option<CellValue>, is_finite: bool) -> (j: JsonCellValue)
    ensures
        j@ == value_record(
            (match *value {
                Some(v) => Some(v@),
                None => None,
            }),
            is_finite,
        ),
{
    match value {
        None => JsonCellValue::Empty,
        Some(CellValue::Number(n)) => if is_finite {
            JsonCellValue::Number(n.clone())
        } else {
            JsonCellValue::Empty
        },
        Some(CellValue::DateTime(t)) => JsonCellValue::DateTime(format_date_time(t)),
        Some(CellValue::Text(t)) => JsonCellValue::Text(t.clone()),
        Some(CellValue::Boolean(b)) => JsonCellValue::Boolean(*b),
        Some(CellValue::Error(e)) => JsonCellValue::Error(e.clone()),
    }
}

/// The record of a style.
pub open spec fn style_record(s: StyleView) -> JsonStyleView {
    JsonStyleView {
        size_pt: s.font.size_pt,
        bold: s.font.bold,
        wrap_text: s.wrap_text,
        alignment: alignment_name(s.horizontal_alignment),
        number_format: s.number_format,
        fill_fg_color: s.fill_fg_color,
        fill_bg_color: s.fill_bg_color,
        borders: borders_record(s.borders),
    }
}

/// The record of a style.
pub fn style_to_json(s: &ResolvedStyle) -> (j: JsonStyle)
    ensures
        j@ == style_record(s@),
{
    JsonStyle {
        font: JsonFont { size_pt: s.font.size_pt.clone(), bold: s.font.bold },
        wrap_text: s.wrap_text,
        alignment: alignment_tag(s.horizontal_alignment),
        number_format: text::copy_opt(&s.number_format),
        fill_fg_color: color_opt_to_json(&s.fill_fg_color),
        fill_bg_color: color_opt_to_json(&s.fill_bg_color),
        borders: borders_to_json(&s.borders),
    }
}

/// The record of a sheet's cell, with the span of the merged region that begins
/// there.
pub open spec fn cell_record(
    s: crate::model::sheet::SheetView,
    r: CellRef,
    c: CellView,
    is_finite: bool,
) -> JsonCellView {
    JsonCellView {
        row: r.row,
        col: r.col,
        value: value_record(c.value, is_finite),
        row_span: if s.merges.contains_key(r) {
            s.merges[r].end.row - s.merges[r].start.row + 1
        } else {
            1
        },
        col_span: if s.merges.contains_key(r) {
            s.merges[r].end.col - s.merges[r].start.col + 1
        } else {
            1
        },
        style: match c.style {
            Some(st) => Some(style_record(st)),
            None => None,
        },
        hyperlink: if s.hyperlinks.contains_key(r) {
            Some(s.hyperlinks[r])
        } else {
            None
        },
    }
}

/// The record of a sheet's cell. `is_finite` says whether its value, if it is a
/// number, is finite.
pub fn cell_to_json(sheet: &Sheet, cell_ref: CellRef, cell: &Cell, is_finite: bool) -> (j: JsonCell)
    requires
        sheet.wf(),
        sheet@.merges.contains_key(cell_ref) ==> sheet@.merges[cell_ref].end.row
            - sheet@.merges[cell_ref].start.row < u32::MAX && sheet@.merges[cell_ref].end.col
            - sheet@.merges[cell_ref].start.col < u32::MAX,
    ensures
        j@ == cell_record(sheet@, cell_ref, cell@, is_finite),
{
    proof {
        sheet.lemma_wf();
    }
    let (row_span, col_span): (u32, u32) = match sheet.merged_region_at(cell_ref) {
        Some(m) => (m.row_span(), m.col_span()),
        None => (1, 1),
    };
    JsonCell {
        row: cell_ref.row,
        col: cell_ref.col,
        value: cell_value_to_json(&cell.value, is_finite),
        row_span,
        col_span,
        style: match &cell.style {
            Some(s) => Some(style_to_json(s)),
            None => None,
        },
        hyperlink: match sheet.hyperlink_at(cell_ref) {
            Some(h) => Some(hyperlink_to_json(h)),
            None => None,
        },
    }
}

/// The record of a position.
pub open spec fn marker_record(m: AnchorMarker) -> JsonMarker {
    JsonMarker { row: m.cell.row, col: m.cell.col, col_off: m.col_off, row_off: m.row_off }
}

/// The record of a position.
pub fn marker_to_json(marker: &AnchorMarker) -> (j: JsonMarker)
    ensures
        j == marker_record(*marker),
{
    JsonMarker {
        row: marker.cell.row,
        col: marker.cell.col,
        col_off: marker.col_off,
        row_off: marker.row_off,
    }
}

/// The record of where an image sits.
pub open spec fn anchor_record(a: ImageAnchor) -> JsonAnchor {
    match a {
        ImageAnchor::TwoCell { from, to } => JsonAnchor::TwoCell {
            from: marker_record(from),
            to: marker_record(to),
        },
        ImageAnchor::OneCell { from, ext } => JsonAnchor::OneCell {
            from: marker_record(from),
            ext: JsonExtent { cx: ext.cx, cy: ext.cy },
        },
    }
}

/// The record of where an image sits.
pub fn anchor_to_json(anchor: &ImageAnchor) -> (j: JsonAnchor)
    ensures
        j == anchor_record(*anchor),
{
    match anchor {
        ImageAnchor::TwoCell { from, to } => JsonAnchor::TwoCell {
            from: marker_to_json(from),
            to: marker_to_json(to),
        },
        ImageAnchor::OneCell { from, ext } => JsonAnchor::OneCell {
            from: marker_to_json(from),
            ext: JsonExtent { cx: ext.cx, cy: ext.cy },
        },
    }
}

/// The record of an image.
pub fn image_to_json(image: &Image) -> (j: JsonImage)
    ensures
        j.anchor == anchor_record(image@.anchor),
        j.target@ == image@.target,
        text::text_opt(j.hyperlink) == image@.hyperlink,
{
    JsonImage {
        anchor: anchor_to_json(&image.anchor),
        target: image.target.clone(),
        hyperlink: text::copy_opt(&image.hyperlink),
    }
}

/// Borders have a record exactly if a side carries one, and it says of each side whether
/// it does.
pub proof fn law_borders_are_told_side_by_side(b: Borders)
    ensures
        borders_record(b) is None <==> b == (Borders {
            top: false,
            right: false,
            bottom: false,
            left: false,
        }),
        borders_record(b) matches Some(j) ==> b == (Borders {
            top: j.top,
            right: j.right,
            bottom: j.bottom,
            left: j.left,
        }),
{
}

/// The value that a record stands for.
pub open spec fn value_of_record(j: JsonValueView) -> Option<ValueView> {
    match j {
        JsonValueView::Number(n) => Some(ValueView::Number(n)),
        JsonValueView::DateTime(d) => match crate::parse::iso8601::iso_value(d, false) {
            Some(t) => Some(ValueView::DateTime(t)),
            None => None,
        },
        JsonValueView::Text(t) => Some(ValueView::Text(t)),
        JsonValueView::Boolean(b) => Some(ValueView::Boolean(b)),
        JsonValueView::Error(e) => Some(ValueView::Error(e)),
        JsonValueView::Empty => None,
    }
}

/// The record of a value stands for that value. Only a number that is not finite is
/// lost: it counts as no value.
pub proof fn law_records_stand_for_their_value(value: Option<ValueView>, is_finite: bool)
    requires
        value matches Some(ValueView::DateTime(t)) ==> 0 <= t.year && 1 <= t.month <= 12 && 1
            <= t.day <= 31 && t.hour <= 23 && t.minute <= 59 && t.second <= 59,
    ensures
        value_of_record(value_record(value, is_finite)) == (if value matches Some(v)
            && v is Number && !is_finite {
            None
        } else {
            value
        }),
{
    if let Some(ValueView::DateTime(t)) = value {
        law_written_dates_read_back(t, false);
    }
}

/// The record of a style has the style's own font, wrapping, number format, colors and
/// borders. Its alignment is named as `styles_laws::law_alignments_read_back` says.
pub proof fn law_records_keep_the_style(s: StyleView)
    ensures
        ({
            let j = style_record(s);
            &&& j.size_pt == s.font.size_pt
            &&& j.bold == s.font.bold
            &&& j.wrap_text == s.wrap_text
            &&& j.number_format == s.number_format
            &&& j.fill_fg_color == s.fill_fg_color
            &&& j.fill_bg_color == s.fill_bg_color
            &&& j.alignment == alignment_name(s.horizontal_alignment)
            &&& s.borders == match j.borders {
                Some(b) => Borders { top: b.top, right: b.right, bottom: b.bottom, left: b.left },
                None => Borders { top: false, right: false, bottom: false, left: false },
            }
        }),
{
}

/// The name of a visibility is what a workbook states for it.
pub proof fn law_visibilities_read_back(v: SheetVisibility)
    ensures
        crate::parse::workbook::visibility_of(Some(visibility_name(v))) == v,
        crate::parse::workbook::visibility_of(None) == SheetVisibility::Visible,
{
    reveal_strlit("visible");
    reveal_strlit("hidden");
    reveal_strlit("veryHidden");
    assert("visible"@.len() == 7 && "hidden"@.len() == 6 && "veryHidden"@.len() == 10);
}

/// The record of a cell where a merged region begins spans as many rows and columns as
/// the region takes in; every other cell spans one of each. The record stands at the
/// cell, has its value and style, and the hyperlink there.
pub proof fn law_records_span_their_region(
    s: crate::model::sheet::SheetView,
    r: CellRef,
    c: CellView,
    is_finite: bool,
)
    requires
        s.merges.contains_key(r) ==> s.merges[r].start == r && s.merges[r].valid(),
    ensures
        ({
            let j = cell_record(s, r, c, is_finite);
            &&& j.row == r.row && j.col == r.col
            &&& j.row_span >= 1 && j.col_span >= 1
            &&& !s.merges.contains_key(r) ==> j.row_span == 1 && j.col_span == 1
            &&& s.merges.contains_key(r) ==> forall|q: CellRef| #[trigger]
                s.merges[r].covers(q) <==> r.row <= q.row < r.row + j.row_span && r.col <= q.col
                    < r.col + j.col_span
            &&& j.value == value_record(c.value, is_finite)
            &&& j.style is Some <==> c.style is Some
            &&& c.style matches Some(st) ==> j.style == Some(style_record(st))
            &&& j.hyperlink is Some <==> s.hyperlinks.contains_key(r)
            &&& s.hyperlinks.contains_key(r) ==> j.hyperlink == Some(s.hyperlinks[r])
        }),
{
}

/// The record of where an image sits tells the cells, offsets and sizes apart.
pub proof fn law_records_keep_the_anchor(a: ImageAnchor)
    ensures
        match anchor_record(a) {
            JsonAnchor::TwoCell { from, to } => a matches ImageAnchor::TwoCell { from: f, to: t }
                && marks(from, f) && marks(to, t),
            JsonAnchor::OneCell { from, ext } => a matches ImageAnchor::OneCell {
                from: f,
                ext: e,
            } && marks(from, f) && ext.cx == e.cx && ext.cy == e.cy,
        },
{
}

/// Whether a record says the row, the column and the offsets of a position.
pub open spec fn marks(j: JsonMarker, m: AnchorMarker) -> bool {
    &&& (CellRef { row: j.row, col: j.col }) == m.cell
    &&& j.col_off == m.col_off
    &&& j.row_off == m.row_off
}

} // verus!
