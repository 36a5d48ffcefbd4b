//! The stylesheet part.
use crate::container::data::PartData;
use crate::error;
use crate::error::{Error, ErrorView};
use crate::model::color;
use crate::model::color::{ColorRef, ColorView};
use crate::model::style;
use crate::model::style::{Alignment, Borders, Font, FontView, ResolvedStyle, StyleSheet, StyleView};
use crate::number;
use crate::number::Number;
use crate::parse::number_format;
use crate::parse::part;
use crate::parse::part::PartParser;
use crate::parse::xml;
use crate::parse::xml::{EventView, TagView, XmlEvent, XmlTag};
use crate::text;
use std::sync::Arc;
use vstd::prelude::*;

verus! {

/// A fill's two colors.
#[derive(Debug, PartialEq)]
pub struct Fill {
    pub fg: Option<ColorRef>,
    pub bg: Option<ColorRef>,
}

/// A fill as contracts speak of it.
#[verifier::ext_equal]
pub struct FillView {
    pub fg: Option<ColorView>,
    pub bg: Option<ColorView>,
}

impl View for Fill {
    type V = FillView;

    open spec fn view(&self) -> FillView {
        FillView { fg: color::color_opt(self.fg), bg: color::color_opt(self.bg) }
    }
}

/// A fill without colors.
pub open spec fn no_fill() -> FillView {
    FillView { fg: None, bg: None }
}

/// A custom number format.
#[derive(Debug, Clone, PartialEq, Eq)]
pub struct NumFmt {
    pub id: u32,
    pub code: String,
}

/// The stylesheet part being read.
pub struct StylesParser {
    pub num_fmts: Vec<NumFmt>,
    pub fonts: Vec<Font>,
    pub in_fonts: bool,
    pub cur_font: Option<Font>,
    pub fills: Vec<Fill>,
    pub in_fills: bool,
    pub cur_fill: Option<Fill>,
    pub borders: Vec<Borders>,
    pub in_borders: bool,
    pub cur_border: Option<Borders>,
    pub in_cell_xfs: bool,
    /// Whether the children of the last style are being read.
    pub xf_open: bool,
    pub styles: Vec<ResolvedStyle>,
}

/// The state of reading the stylesheet part.
#[verifier::ext_equal]
pub struct StylesState {
    pub num_fmts: Seq<(u32, Seq<char>)>,
    pub fonts: Seq<FontView>,
    pub in_fonts: bool,
    pub cur_font: Option<FontView>,
    pub fills: Seq<FillView>,
    pub in_fills: bool,
    pub cur_fill: Option<FillView>,
    pub borders: Seq<Borders>,
    pub in_borders: bool,
    pub cur_border: Option<Borders>,
    pub in_cell_xfs: bool,
    pub xf_open: bool,
    pub styles: Seq<StyleView>,
}

impl View for StylesParser {
    type V = StylesState;

    open spec fn view(&self) -> StylesState {
        StylesState {
            num_fmts: self.num_fmts@.map_values(|f: NumFmt| (f.id, f.code@)),
            fonts: self.fonts@.map_values(|f: Font| f@),
            in_fonts: self.in_fonts,
            cur_font: match self.cur_font {
                Some(f) => Some(f@),
                None => None,
            },
            fills: self.fills@.map_values(|f: Fill| f@),
            in_fills: self.in_fills,
            cur_fill: match self.cur_fill {
                Some(f) => Some(f@),
                None => None,
            },
            borders: self.borders@,
            in_borders: self.in_borders,
            cur_border: self.cur_border,
            in_cell_xfs: self.in_cell_xfs,
            xf_open: self.xf_open,
            styles: self.styles@.map_values(|x: ResolvedStyle| x@),
        }
    }
}

/// The number that an attribute holds, or zero.
pub open spec fn index_or_zero(v: Option<Seq<char>>, max: int) -> int {
    match v {
        Some(s) => match text::unsigned_value(s, max) {
            Some(n) => n,
            None => 0,
        },
        None => 0,
    }
}

fn read_index(v: &Option<String>, max: u64) -> (n: u64)
    ensures
        n == index_or_zero(text::text_opt(*v), max as int),
        n <= max,
{
    match v {
        Some(s) => {
            let chars: Vec<char> = text::to_chars(s.as_str());
            match text::parse_unsigned(&chars, max) {
                Some(n) => n,
                None => 0,
            }
        },
        None => 0,
    }
}

/// The code of a custom number format; the last definition counts.
pub open spec fn custom_code(fmts: Seq<(u32, Seq<char>)>, id: u32) -> Option<Seq<char>>
    decreases fmts.len(),
{
    if fmts.len() == 0 {
        None
    } else if fmts.last().0 == id {
        Some(fmts.last().1)
    } else {
        custom_code(fmts.drop_last(), id)
    }
}

fn find_code(fmts: &Vec<NumFmt>, id: u32) -> (r: Option<String>)
    ensures
        text::text_opt(r) == custom_code(fmts@.map_values(|f: NumFmt| (f.id, f.code@)), id),
{
    let ghost all = fmts@.map_values(|f: NumFmt| (f.id, f.code@));
    let mut i: usize = fmts.len();
    assert(all.take(i as int) =~= all);
    while i > 0
        invariant
            i <= fmts@.len(),
            all == fmts@.map_values(|f: NumFmt| (f.id, f.code@)),
            custom_code(all.take(i as int), id) == custom_code(all, id),
        decreases i,
    {
        assert(all.take(i as int).last() == (fmts@[i - 1].id, fmts@[i - 1].code@));
        assert(all.take(i as int).drop_last() =~= all.take(i - 1));
        if fmts[i - 1].id == id {
            return Some(fmts[i - 1].code.clone());
        }
        i -= 1;
    }
    None
}

/// The format code that a number format ID stands for; none for the general
/// format and for an ID that is not defined.
pub open spec fn format_code(fmts: Seq<(u32, Seq<char>)>, id: u32) -> Option<Seq<char>> {
    if id == 0 {
        None
    } else {
        match number_format::builtin_code(id) {
            Some(c) => Some(c),
            None => custom_code(fmts, id),
        }
    }
}

/// The color that an `fgColor` or `bgColor` element refers to.
pub open spec fn color_of(tag: TagView, path: Seq<char>) -> Result<Option<ColorView>, ErrorView> {
    match xml::attr_value(tag.attrs, path, "rgb"@) {
        Err(e) => Err(e),
        Ok(Some(s)) => Ok(Some(ColorView::Rgb(s))),
        Ok(None) => match xml::attr_value(tag.attrs, path, "theme"@) {
            Err(e) => Err(e),
            Ok(theme) => match xml::attr_value(tag.attrs, path, "tint"@) {
                Err(e) => Err(e),
                Ok(tint) => match xml::attr_value(tag.attrs, path, "indexed"@) {
                    Err(e) => Err(e),
                    Ok(indexed) => Ok(color_from(theme, tint, indexed)),
                },
            },
        },
    }
}

/// The color that a theme index with a tint, or else a legacy index, refers to.
pub open spec fn color_from(
    theme: Option<Seq<char>>,
    tint: Option<Seq<char>>,
    indexed: Option<Seq<char>>,
) -> Option<ColorView> {
    match u32_of(theme) {
        Some(index) => Some(
            ColorView::Theme {
                index,
                tint: match tint {
                    Some(t) => number::number_of(t),
                    None => None,
                },
            },
        ),
        None => match u32_of(indexed) {
            Some(i) => Some(ColorView::Indexed(i)),
            None => None,
        },
    }
}

/// The 32-bit number that a text denotes, if it is there and denotes one.
pub open spec fn u32_of(v: Option<Seq<char>>) -> Option<u32> {
    match v {
        Some(s) => match text::unsigned_value(s, u32::MAX as int) {
            Some(n) => Some(n as u32),
            None => None,
        },
        None => None,
    }
}

fn read_u32(v: &Option<String>) -> (r: Option<u32>)
    ensures
        r == u32_of(text::text_opt(*v)),
{
    match v {
        Some(s) => {
            let chars: Vec<char> = text::to_chars(s.as_str());
            match text::parse_unsigned(&chars, u32::MAX as u64) {
                Some(n) => Some(n as u32),
                None => None,
            }
        },
        None => None,
    }
}

fn read_color(tag: &XmlTag, path: &str) -> (r: Result<Option<ColorRef>, Error>)
    ensures
        (match r {
            Ok(c) => Ok(color::color_opt(c)),
            Err(e) => Err(e@),
        }) == color_of(tag@, path@),
{
    match xml::optional_attr(tag, path, "rgb") {
        Err(e) => {
            return Err(e);
        },
        Ok(Some(s)) => {
            return Ok(Some(ColorRef::Rgb(s)));
        },
        Ok(None) => {},
    }
    let theme: Option<String> = match xml::optional_attr(tag, path, "theme") {
        Ok(v) => v,
        Err(e) => {
            return Err(e);
        },
    };
    let tint: Option<String> = match xml::optional_attr(tag, path, "tint") {
        Ok(v) => v,
        Err(e) => {
            return Err(e);
        },
    };
    let indexed: Option<String> = match xml::optional_attr(tag, path, "indexed") {
        Ok(v) => v,
        Err(e) => {
            return Err(e);
        },
    };
    match read_u32(&theme) {
        Some(index) => {
            let tint: Option<Number> = match &tint {
                Some(t) => Number::parse(t.as_str()),
                None => None,
            };
            Ok(Some(ColorRef::Theme { index, tint }))
        },
        None => match read_u32(&indexed) {
            Some(i) => Ok(Some(ColorRef::Indexed(i))),
            None => Ok(None),
        },
    }
}

/// The horizontal alignment that an attribute denotes.
pub open spec fn alignment_of(v: Option<Seq<char>>) -> Alignment {
    if v == Some("left"@) {
        Alignment::Left
    } else if v == Some("center"@) {
        Alignment::Center
    } else if v == Some("right"@) {
        Alignment::Right
    } else if v == Some("fill"@) {
        Alignment::Fill
    } else if v == Some("justify"@) {
        Alignment::Justify
    } else if v == Some("centerContinuous"@) {
        Alignment::CenterContinuous
    } else if v == Some("distributed"@) {
        Alignment::Distributed
    } else {
        Alignment::General
    }
}

fn read_alignment(v: &Option<String>) -> (a: Alignment)
    ensures
        a == alignment_of(text::text_opt(*v)),
{
    if text::is_some_text(v, "left") {
        Alignment::Left
    } else if text::is_some_text(v, "center") {
        Alignment::Center
    } else if text::is_some_text(v, "right") {
        Alignment::Right
    } else if text::is_some_text(v, "fill") {
        Alignment::Fill
    } else if text::is_some_text(v, "justify") {
        Alignment::Justify
    } else if text::is_some_text(v, "centerContinuous") {
        Alignment::CenterContinuous
    } else if text::is_some_text(v, "distributed") {
        Alignment::Distributed
    } else {
        Alignment::General
    }
}

/// The style that an `xf` element states, before its children.
pub open spec fn xf_style(st: StylesState, tag: TagView, path: Seq<char>) -> Result<
    StyleView,
    ErrorView,
> {
    match xml::attr_value(tag.attrs, path, "numFmtId"@) {
        Err(e) => Err(e),
        Ok(num_fmt) => match xml::attr_value(tag.attrs, path, "fontId"@) {
            Err(e) => Err(e),
            Ok(font) => match xml::attr_value(tag.attrs, path, "fillId"@) {
                Err(e) => Err(e),
                Ok(fill) => match xml::attr_value(tag.attrs, path, "borderId"@) {
                    Err(e) => Err(e),
                    Ok(border) => Ok(style_from(st, num_fmt, font, fill, border)),
                },
            },
        },
    }
}

/// The style that the four indices of an `xf` element select. An index that is
/// absent, malformed or out of range selects the default.
pub open spec fn style_from(
    st: StylesState,
    num_fmt: Option<Seq<char>>,
    font: Option<Seq<char>>,
    fill: Option<Seq<char>>,
    border: Option<Seq<char>>,
) -> StyleView {
    let id = index_or_zero(num_fmt, u32::MAX as int) as u32;
    let f = index_or_zero(font, usize::MAX as int);
    let l = index_or_zero(fill, usize::MAX as int);
    let b = index_or_zero(border, usize::MAX as int);
    let fill_view = if l < st.fills.len() {
        st.fills[l]
    } else {
        no_fill()
    };
    StyleView {
        is_date_time: number_format::is_date_format(id, custom_code(st.num_fmts, id)),
        font: if f < st.fonts.len() {
            st.fonts[f]
        } else {
            style::default_font()
        },
        wrap_text: false,
        horizontal_alignment: Alignment::General,
        number_format: format_code(st.num_fmts, id),
        fill_fg_color: fill_view.fg,
        fill_bg_color: fill_view.bg,
        borders: if b < st.borders.len() {
            st.borders[b]
        } else {
            style::no_borders()
        },
    }
}

/// Whether an attribute says no to what is on by default.
pub open spec fn is_off(v: Option<Seq<char>>) -> bool {
    v == Some("0"@) || v == Some("false"@)
}

/// Whether an attribute says yes.
pub open spec fn is_on(v: Option<Seq<char>>) -> bool {
    v == Some("1"@) || v == Some("true"@)
}

/// The borders with one side's presence set by its element.
pub open spec fn with_side(b: Borders, side: Seq<char>, present: bool) -> Borders {
    if side == "left"@ {
        Borders { left: present, ..b }
    } else if side == "right"@ {
        Borders { right: present, ..b }
    } else if side == "top"@ {
        Borders { top: present, ..b }
    } else {
        Borders { bottom: present, ..b }
    }
}

/// Whether an element states one side of a border.
pub open spec fn is_side(name: Seq<char>) -> bool {
    name == "left"@ || name == "right"@ || name == "top"@ || name == "bottom"@
}

/// The state after a start tag, or an empty-element tag.
pub open spec fn styles_tag(st: StylesState, tag: TagView, empty: bool, path: Seq<char>) -> Result<
    StylesState,
    ErrorView,
> {
    if tag.name == "numFmt"@ {
        num_fmt_tag(st, tag, path)
    } else if tag.name == "fonts"@ {
        Ok(StylesState { in_fonts: st.in_fonts || !empty, ..st })
    } else if tag.name == "fills"@ {
        Ok(StylesState { in_fills: st.in_fills || !empty, ..st })
    } else if tag.name == "borders"@ {
        Ok(StylesState { in_borders: st.in_borders || !empty, ..st })
    } else if tag.name == "cellXfs"@ {
        Ok(StylesState { in_cell_xfs: st.in_cell_xfs || !empty, ..st })
    } else if st.in_fonts && tag.name == "font"@ {
        if empty {
            Ok(StylesState { fonts: st.fonts.push(style::default_font()), ..st })
        } else {
            Ok(StylesState { cur_font: Some(style::default_font()), ..st })
        }
    } else if st.in_fills && tag.name == "fill"@ {
        if empty {
            Ok(StylesState { fills: st.fills.push(no_fill()), ..st })
        } else {
            Ok(StylesState { cur_fill: Some(no_fill()), ..st })
        }
    } else if st.in_borders && tag.name == "border"@ {
        if empty {
            Ok(StylesState { borders: st.borders.push(style::no_borders()), ..st })
        } else {
            Ok(StylesState { cur_border: Some(style::no_borders()), ..st })
        }
    } else if st.cur_font is Some && (tag.name == "sz"@ || tag.name == "b"@) {
        font_tag(st, tag, path)
    } else if st.cur_fill is Some && (tag.name == "fgColor"@ || tag.name == "bgColor"@) {
        fill_tag(st, tag, path)
    } else if st.cur_border is Some && is_side(tag.name) {
        match xml::attr_value(tag.attrs, path, "style"@) {
            Err(e) => Err(e),
            Ok(v) => Ok(
                StylesState {
                    cur_border: Some(
                        with_side(st.cur_border->0, tag.name, v is Some && v != Some("none"@)),
                    ),
                    ..st
                },
            ),
        }
    } else if st.in_cell_xfs && tag.name == "xf"@ {
        match xf_style(st, tag, path) {
            Err(e) => Err(e),
            Ok(s) => Ok(StylesState { styles: st.styles.push(s), xf_open: !empty, ..st }),
        }
    } else if st.xf_open && st.styles.len() > 0 && tag.name == "alignment"@ {
        alignment_tag(st, tag, path)
    } else {
        Ok(st)
    }
}

/// The state after a `numFmt` element; one whose ID is no number is left out.
pub open spec fn num_fmt_tag(st: StylesState, tag: TagView, path: Seq<char>) -> Result<
    StylesState,
    ErrorView,
> {
    match xml::required_value(tag.attrs, path, "numFmtId"@) {
        Err(e) => Err(e),
        Ok(id) => match xml::required_value(tag.attrs, path, "formatCode"@) {
            Err(e) => Err(e),
            Ok(code) => match u32_of(Some(id)) {
                Some(n) => Ok(StylesState { num_fmts: st.num_fmts.push((n, code)), ..st }),
                None => Ok(st),
            },
        },
    }
}

/// The state after an element that states the open font's size or weight.
pub open spec fn font_tag(st: StylesState, tag: TagView, path: Seq<char>) -> Result<
    StylesState,
    ErrorView,
> {
    let font = st.cur_font->0;
    match xml::attr_value(tag.attrs, path, "val"@) {
        Err(e) => Err(e),
        Ok(v) => if tag.name == "sz"@ {
            match v {
                Some(s) => match number::number_of(s) {
                    Some(n) => Ok(
                        StylesState { cur_font: Some(FontView { size_pt: n, ..font }), ..st },
                    ),
                    None => Ok(st),
                },
                None => Ok(st),
            }
        } else {
            Ok(StylesState { cur_font: Some(FontView { bold: !is_off(v), ..font }), ..st })
        },
    }
}

/// The state after an element that states one of the open fill's colors.
pub open spec fn fill_tag(st: StylesState, tag: TagView, path: Seq<char>) -> Result<
    StylesState,
    ErrorView,
> {
    let fill = st.cur_fill->0;
    match color_of(tag, path) {
        Err(e) => Err(e),
        Ok(c) => if tag.name == "fgColor"@ {
            Ok(StylesState { cur_fill: Some(FillView { fg: c, ..fill }), ..st })
        } else {
            Ok(StylesState { cur_fill: Some(FillView { bg: c, ..fill }), ..st })
        },
    }
}

/// The state after an `alignment` element of the open format.
pub open spec fn alignment_tag(st: StylesState, tag: TagView, path: Seq<char>) -> Result<
    StylesState,
    ErrorView,
> {
    match xml::attr_value(tag.attrs, path, "wrapText"@) {
        Err(e) => Err(e),
        Ok(wrap) => match xml::attr_value(tag.attrs, path, "horizontal"@) {
            Err(e) => Err(e),
            Ok(horizontal) => Ok(
                StylesState {
                    styles: st.styles.drop_last().push(
                        StyleView {
                            wrap_text: is_on(wrap),
                            horizontal_alignment: alignment_of(horizontal),
                            ..st.styles.last()
                        },
                    ),
                    ..st
                },
            ),
        },
    }
}

/// The state after an end tag.
pub open spec fn styles_end(st: StylesState, name: Seq<char>) -> StylesState {
    if name == "fonts"@ {
        StylesState { in_fonts: false, ..st }
    } else if name == "fills"@ {
        StylesState { in_fills: false, ..st }
    } else if name == "borders"@ {
        StylesState { in_borders: false, ..st }
    } else if name == "cellXfs"@ {
        StylesState { in_cell_xfs: false, ..st }
    } else if name == "font"@ && st.in_fonts && st.cur_font is Some {
        StylesState { fonts: st.fonts.push(st.cur_font->0), cur_font: None, ..st }
    } else if name == "fill"@ && st.in_fills && st.cur_fill is Some {
        StylesState { fills: st.fills.push(st.cur_fill->0), cur_fill: None, ..st }
    } else if name == "border"@ && st.in_borders && st.cur_border is Some {
        StylesState { borders: st.borders.push(st.cur_border->0), cur_border: None, ..st }
    } else if name == "xf"@ {
        StylesState { xf_open: false, ..st }
    } else {
        st
    }
}

/// The state after one more event.
pub open spec fn styles_step(st: StylesState, ev: EventView, path: Seq<char>) -> Result<
    StylesState,
    ErrorView,
> {
    match ev {
        EventView::Start(tag) => styles_tag(st, tag, false, path),
        EventView::Empty(tag) => styles_tag(st, tag, true, path),
        EventView::End(name) => Ok(styles_end(st, name)),
        _ => Ok(st),
    }
}

impl StylesParser {
    /// Before the first event.
    pub fn new() -> (p: StylesParser)
        ensures
            p@ == no_styles(),
    {
        let p = StylesParser {
            num_fmts: Vec::new(),
            fonts: Vec::new(),
            in_fonts: false,
            cur_font: None,
            fills: Vec::new(),
            in_fills: false,
            cur_fill: None,
            borders: Vec::new(),
            in_borders: false,
            cur_border: None,
            in_cell_xfs: false,
            xf_open: false,
            styles: Vec::new(),
        };
        assert(p@ =~= no_styles());
        p
    }

    fn num_fmt(&mut self, tag: &XmlTag, path: &str) -> (r: Result<(), Error>)
        ensures
            match num_fmt_tag(old(self)@, tag@, path@) {
                Ok(s) => r is Ok && final(self)@ == s,
                Err(f) => r matches Err(e) && e@ == f,
            },
    {
        let id: String = match xml::required_attr(tag, path, "numFmtId") {
            Ok(v) => v,
            Err(e) => {
                return Err(e);
            },
        };
        let code: String = match xml::required_attr(tag, path, "formatCode") {
            Ok(v) => v,
            Err(e) => {
                return Err(e);
            },
        };
        let ghost written = id@;
        let id: Option<String> = Some(id);
        assert(text::text_opt(id) == Some(written));
        if let Some(n) = read_u32(&id) {
            self.num_fmts.push(NumFmt { id: n, code });
            assert(self@.num_fmts =~= old(self)@.num_fmts.push((n, code@)));
            assert(self@ =~= num_fmt_tag(old(self)@, tag@, path@)->Ok_0);
        }
        Ok(())
    }

    fn font(&mut self, tag: &XmlTag, path: &str) -> (r: Result<(), Error>)
        requires
            old(self)@.cur_font is Some,
            tag@.name == "sz"@ || tag@.name == "b"@,
        ensures
            match font_tag(old(self)@, tag@, path@) {
                Ok(s) => r is Ok && final(self)@ == s,
                Err(f) => r matches Err(e) && e@ == f,
            },
    {
        let v: Option<String> = match xml::optional_attr(tag, path, "val") {
            Ok(v) => v,
            Err(e) => {
                return Err(e);
            },
        };
        if let Some(font) = self.cur_font.take() {
            if text::same(tag.name.as_str(), "sz") {
                let size: Option<Number> = match &v {
                    Some(s) => Number::parse(s.as_str()),
                    None => None,
                };
                match size {
                    Some(n) => {
                        self.cur_font = Some(Font { size_pt: n, bold: font.bold });
                    },
                    None => {
                        self.cur_font = Some(font);
                    },
                }
            } else {
                let off: bool = text::is_some_text(&v, "0") || text::is_some_text(&v, "false");
                self.cur_font = Some(Font { size_pt: font.size_pt, bold: !off });
            }
        }
        assert(self@ =~= font_tag(old(self)@, tag@, path@)->Ok_0);
        Ok(())
    }

    fn fill(&mut self, tag: &XmlTag, path: &str) -> (r: Result<(), Error>)
        requires
            old(self)@.cur_fill is Some,
            tag@.name == "fgColor"@ || tag@.name == "bgColor"@,
        ensures
            match fill_tag(old(self)@, tag@, path@) {
                Ok(s) => r is Ok && final(self)@ == s,
                Err(f) => r matches Err(e) && e@ == f,
            },
    {
        let c: Option<ColorRef> = match read_color(tag, path) {
            Ok(c) => c,
            Err(e) => {
                return Err(e);
            },
        };
        if let Some(fill) = self.cur_fill.take() {
            if text::same(tag.name.as_str(), "fgColor") {
                self.cur_fill = Some(Fill { fg: c, bg: fill.bg });
            } else {
                self.cur_fill = Some(Fill { fg: fill.fg, bg: c });
            }
        }
        assert(self@ =~= fill_tag(old(self)@, tag@, path@)->Ok_0);
        Ok(())
    }

    fn alignment(&mut self, tag: &XmlTag, path: &str) -> (r: Result<(), Error>)
        requires
            old(self)@.styles.len() > 0,
        ensures
            match alignment_tag(old(self)@, tag@, path@) {
                Ok(s) => r is Ok && final(self)@ == s,
                Err(f) => r matches Err(e) && e@ == f,
            },
    {
        let wrap: Option<String> = match xml::optional_attr(tag, path, "wrapText") {
            Ok(v) => v,
            Err(e) => {
                return Err(e);
            },
        };
        let horizontal: Option<String> = match xml::optional_attr(tag, path, "horizontal") {
            Ok(v) => v,
            Err(e) => {
                return Err(e);
            },
        };
        if let Some(xf) = self.styles.pop() {
            let on: bool = text::is_some_text(&wrap, "1") || text::is_some_text(&wrap, "true");
            assert(old(self)@.styles.last() == xf@);
            self.styles.push(
                ResolvedStyle {
                    wrap_text: on,
                    horizontal_alignment: read_alignment(&horizontal),
                    ..xf
                },
            );
            assert(self@.styles =~= alignment_tag(old(self)@, tag@, path@)->Ok_0.styles);
        }
        assert(self@ =~= alignment_tag(old(self)@, tag@, path@)->Ok_0);
        Ok(())
    }

    fn xf(&self, tag: &XmlTag, path: &str) -> (r: Result<ResolvedStyle, Error>)
        ensures
            error::result_view(r) == xf_style(self@, tag@, path@),
    {
        let num_fmt: Option<String> = match xml::optional_attr(tag, path, "numFmtId") {
            Ok(v) => v,
            Err(e) => {
                return Err(e);
            },
        };
        let font: Option<String> = match xml::optional_attr(tag, path, "fontId") {
            Ok(v) => v,
            Err(e) => {
                return Err(e);
            },
        };
        let fill: Option<String> = match xml::optional_attr(tag, path, "fillId") {
            Ok(v) => v,
            Err(e) => {
                return Err(e);
            },
        };
        let border: Option<String> = match xml::optional_attr(tag, path, "borderId") {
            Ok(v) => v,
            Err(e) => {
                return Err(e);
            },
        };
        let id: u32 = read_index(&num_fmt, u32::MAX as u64) as u32;
        let f: usize = read_index(&font, usize::MAX as u64) as usize;
        let l: usize = read_index(&fill, usize::MAX as u64) as usize;
        let b: usize = read_index(&border, usize::MAX as u64) as usize;
        let custom: Option<String> = find_code(&self.num_fmts, id);
        let is_date_time: bool = number_format::is_date_time_format(
            id,
            match &custom {
                Some(c) => Some(c.as_str()),
                None => None,
            },
        );
        let number_format: Option<String> = if id == 0 {
            None
        } else {
            match number_format::builtin_format(id) {
                Some(c) => Some(c.to_owned()),
                None => custom,
            }
        };
        let chosen_font: Font = if f < self.fonts.len() {
            assert(self@.fonts[f as int] == self.fonts@[f as int]@);
            self.fonts[f].clone()
        } else {
            Font::default()
        };
        let (fg, bg): (Option<ColorRef>, Option<ColorRef>) = if l < self.fills.len() {
            assert(self@.fills[l as int] == self.fills@[l as int]@);
            (color::copy_opt(&self.fills[l].fg), color::copy_opt(&self.fills[l].bg))
        } else {
            (None, None)
        };
        let borders: Borders = if b < self.borders.len() {
            self.borders[b]
        } else {
            Borders::default()
        };
        Ok(
            ResolvedStyle {
                is_date_time,
                font: chosen_font,
                wrap_text: false,
                horizontal_alignment: Alignment::General,
                number_format,
                fill_fg_color: fg,
                fill_bg_color: bg,
                borders,
            },
        )
    }

    fn side(&mut self, tag: &XmlTag, path: &str) -> (r: Result<(), Error>)
        requires
            old(self)@.cur_border is Some,
            is_side(tag@.name),
        ensures
            match xml::attr_value(tag@.attrs, path@, "style"@) {
                Err(f) => r matches Err(e) && e@ == f,
                Ok(v) => r is Ok && final(self)@ == (StylesState {
                    cur_border: Some(
                        with_side(
                            old(self)@.cur_border->0,
                            tag@.name,
                            v is Some && v != Some("none"@),
                        ),
                    ),
                    ..old(self)@
                }),
            },
    {
        let v: Option<String> = match xml::optional_attr(tag, path, "style") {
            Ok(v) => v,
            Err(e) => {
                return Err(e);
            },
        };
        let present: bool = v.is_some() && !text::is_some_text(&v, "none");
        if let Some(b) = self.cur_border {
            let name: &str = tag.name.as_str();
            let changed: Borders = if text::same(name, "left") {
                Borders { left: present, ..b }
            } else if text::same(name, "right") {
                Borders { right: present, ..b }
            } else if text::same(name, "top") {
                Borders { top: present, ..b }
            } else {
                Borders { bottom: present, ..b }
            };
            self.cur_border = Some(changed);
        }
        Ok(())
    }

    #[verifier::rlimit(40)]
    fn element(&mut self, tag: &XmlTag, empty: bool, path: &str) -> (r: Result<(), Error>)
        ensures
            match styles_tag(old(self)@, tag@, empty, path@) {
                Ok(s) => r is Ok && final(self)@ == s,
                Err(f) => r matches Err(e) && e@ == f,
            },
    {
        let name: &str = tag.name.as_str();
        if text::same(name, "numFmt") {
            return self.num_fmt(tag, path);
        } else if text::same(name, "fonts") {
            self.in_fonts = self.in_fonts || !empty;
        } else if text::same(name, "fills") {
            self.in_fills = self.in_fills || !empty;
        } else if text::same(name, "borders") {
            self.in_borders = self.in_borders || !empty;
        } else if text::same(name, "cellXfs") {
            self.in_cell_xfs = self.in_cell_xfs || !empty;
        } else if self.in_fonts && text::same(name, "font") {
            if empty {
                self.fonts.push(Font::default());
                assert(self@.fonts =~= old(self)@.fonts.push(style::default_font()));
            } else {
                self.cur_font = Some(Font::default());
            }
        } else if self.in_fills && text::same(name, "fill") {
            if empty {
                self.fills.push(Fill { fg: None, bg: None });
                assert(self@.fills =~= old(self)@.fills.push(no_fill()));
            } else {
                self.cur_fill = Some(Fill { fg: None, bg: None });
            }
        } else if self.in_borders && text::same(name, "border") {
            if empty {
                self.borders.push(Borders::default());
            } else {
                self.cur_border = Some(Borders::default());
            }
        } else if self.cur_font.is_some() && (text::same(name, "sz") || text::same(name, "b")) {
            return self.font(tag, path);
        } else if self.cur_fill.is_some() && (text::same(name, "fgColor") || text::same(
            name,
            "bgColor",
        )) {
            return self.fill(tag, path);
        } else if self.cur_border.is_some() && (text::same(name, "left") || text::same(name, "right")
            || text::same(name, "top") || text::same(name, "bottom")) {
            return self.side(tag, path);
        } else if self.in_cell_xfs && text::same(name, "xf") {
            match self.xf(tag, path) {
                Ok(s) => {
                    self.styles.push(s);
                    self.xf_open = !empty;
                    assert(self@.styles =~= old(self)@.styles.push(s@));
                },
                Err(e) => {
                    return Err(e);
                },
            }
        } else if self.xf_open && self.styles.len() > 0 && text::same(name, "alignment") {
            return self.alignment(tag, path);
        }
        Ok(())
    }

    fn end(&mut self, name: &str)
        ensures
            final(self)@ == styles_end(old(self)@, name@),
    {
        if text::same(name, "fonts") {
            self.in_fonts = false;
        } else if text::same(name, "fills") {
            self.in_fills = false;
        } else if text::same(name, "borders") {
            self.in_borders = false;
        } else if text::same(name, "cellXfs") {
            self.in_cell_xfs = false;
        } else if text::same(name, "font") && self.in_fonts && self.cur_font.is_some() {
            if let Some(f) = self.cur_font.take() {
                self.fonts.push(f);
                assert(self@.fonts =~= old(self)@.fonts.push(f@));
            }
        } else if text::same(name, "fill") && self.in_fills && self.cur_fill.is_some() {
            if let Some(f) = self.cur_fill.take() {
                self.fills.push(f);
                assert(self@.fills =~= old(self)@.fills.push(f@));
            }
        } else if text::same(name, "border") && self.in_borders && self.cur_border.is_some() {
            if let Some(b) = self.cur_border.take() {
                self.borders.push(b);
            }
        } else if text::same(name, "xf") {
            self.xf_open = false;
        }
        assert(self@ =~= styles_end(old(self)@, name@));
    }
}

impl PartParser for StylesParser {
    open spec fn inv(&self) -> bool {
        true
    }

    open spec fn finished(state: StylesState) -> bool {
        false
    }

    open spec fn advance(state: StylesState, ev: EventView, path: Seq<char>) -> Result<
        StylesState,
        ErrorView,
    > {
        styles_step(state, ev, path)
    }

    fn is_finished(&self) -> (r: bool) {
        false
    }

    fn step(&mut self, ev: &XmlEvent, path: &str) -> (r: Result<(), Error>) {
        match ev {
            XmlEvent::Start(tag) => self.element(tag, false, path),
            XmlEvent::Empty(tag) => self.element(tag, true, path),
            XmlEvent::End(name) => {
                self.end(name.as_str());
                Ok(())
            },
            _ => Ok(()),
        }
    }
}

/// The state before the first event.
pub open spec fn no_styles() -> StylesState {
    StylesState {
        num_fmts: Seq::empty(),
        fonts: Seq::empty(),
        in_fonts: false,
        cur_font: None,
        fills: Seq::empty(),
        in_fills: false,
        cur_fill: None,
        borders: Seq::empty(),
        in_borders: false,
        cur_border: None,
        in_cell_xfs: false,
        xf_open: false,
        styles: Seq::empty(),
    }
}

/// The styles that a stylesheet part states, by style ID.
pub open spec fn styles_of(events: Seq<EventView>, path: Seq<char>) -> Result<
    Seq<StyleView>,
    ErrorView,
> {
    match part::state_after::<StylesParser>(no_styles(), events, path) {
        Ok(s) => Ok(s.styles),
        Err(e) => Err(e),
    }
}

/// Reads the stylesheet part.
pub fn parse_styles(part: &PartData, path: &str) -> (r: Result<StyleSheet, Error>)
    ensures
        error::result_view(r) == styles_of(xml::part_events(part@), path@),
{
    match part::read_part(StylesParser::new(), part, path) {
        Ok(p) => Ok(share_styles(p.styles)),
        Err(e) => Err(e),
    }
}

/// Makes styles ready to be shared between cells.
fn share_styles(styles: Vec<ResolvedStyle>) -> (sheet: StyleSheet)
    ensures
        sheet@ == styles@.map_values(|x: ResolvedStyle| x@),
{
    let ghost all = styles@.map_values(|x: ResolvedStyle| x@);
    let mut sheet: StyleSheet = StyleSheet::new();
    assert(all.take(0) =~= Seq::<StyleView>::empty());
    for x in it: styles
        invariant
            it.seq() == styles@,
            all == styles@.map_values(|x: ResolvedStyle| x@),
            sheet@ == all.take(it.index() as int),
    {
        sheet.push(Arc::new(x));
        assert(sheet@ =~= all.take(it.index() + 1));
    }
    assert(all.take(all.len() as int) =~= all);
    sheet
}

} // verus!
