//! Resolved cell styles.
use crate::model::color;
use crate::model::color::{ColorRef, ColorView};
use crate::number::Number;
use crate::text;
use std::sync::Arc;
use vstd::prelude::*;

verus! {

/// The index of a style in the stylesheet.
pub type StyleId = u32;

/// The properties of a font that matter here.
#[derive(Debug, PartialEq)]
pub struct Font {
    pub size_pt: Number,
    pub bold: bool,
}

/// A font as contracts speak of it.
pub struct FontView {
    pub size_pt: Seq<char>,
    pub bold: bool,
}

impl View for Font {
    type V = FontView;

    open spec fn view(&self) -> FontView {
        FontView { size_pt: self.size_pt@, bold: self.bold }
    }
}

/// Eleven points, not bold.
pub open spec fn default_font() -> FontView {
    FontView { size_pt: text::decimal(11), bold: false }
}

impl Default for Font {
    fn default() -> (f: Font)
        ensures
            f@ == default_font(),
    {
        Font { size_pt: Number::from_integer(11), bold: false }
    }
}

impl Clone for Font {
    fn clone(&self) -> (f: Font)
        ensures
            f@ == self@,
    {
        Font { size_pt: self.size_pt.clone(), bold: self.bold }
    }
}

/// Which sides of a cell carry a border.
#[derive(Debug, Clone, Copy, PartialEq, Eq, Structural)]
pub struct Borders {
    pub top: bool,
    pub right: bool,
    pub bottom: bool,
    pub left: bool,
}

/// No border on any side.
pub open spec fn no_borders() -> Borders {
    Borders { top: false, right: false, bottom: false, left: false }
}

impl Default for Borders {
    fn default() -> (b: Borders)
        ensures
            b == no_borders(),
    {
        Borders { top: false, right: false, bottom: false, left: false }
    }
}

impl Borders {
    /// Whether any side carries a border.
    pub fn any(&self) -> (r: bool)
        ensures
            r == (*self != no_borders()),
            r == (self.top || self.right || self.bottom || self.left),
    {
        self.top || self.right || self.bottom || self.left
    }
}

/// Horizontal alignment.
#[derive(Debug, Clone, Copy, PartialEq, Eq, Structural)]
pub enum Alignment {
    General,
    Left,
    Center,
    Right,
    Fill,
    Justify,
    CenterContinuous,
    Distributed,
}

impl Default for Alignment {
    fn default() -> (a: Alignment)
        ensures
            a == Alignment::General,
    {
        Alignment::General
    }
}

/// What a style ID stands for.
#[derive(Debug, PartialEq)]
pub struct ResolvedStyle {
    /// Whether the number format shows dates or times.
    pub is_date_time: bool,
    pub font: Font,
    pub wrap_text: bool,
    pub horizontal_alignment: Alignment,
    /// The number format's code; `None` for the general format and for one that
    /// is not defined.
    pub number_format: Option<String>,
    pub fill_fg_color: Option<ColorRef>,
    pub fill_bg_color: Option<ColorRef>,
    pub borders: Borders,
}

/// A style as contracts speak of it.
#[verifier::ext_equal]
pub struct StyleView {
    pub is_date_time: bool,
    pub font: FontView,
    pub wrap_text: bool,
    pub horizontal_alignment: Alignment,
    pub number_format: Option<Seq<char>>,
    pub fill_fg_color: Option<ColorView>,
    pub fill_bg_color: Option<ColorView>,
    pub borders: Borders,
}

impl View for ResolvedStyle {
    type V = StyleView;

    open spec fn view(&self) -> StyleView {
        StyleView {
            is_date_time: self.is_date_time,
            font: self.font@,
            wrap_text: self.wrap_text,
            horizontal_alignment: self.horizontal_alignment,
            number_format: text::text_opt(self.number_format),
            fill_fg_color: color::color_opt(self.fill_fg_color),
            fill_bg_color: color::color_opt(self.fill_bg_color),
            borders: self.borders,
        }
    }
}

/// The style of a cell about which nothing is said.
pub open spec fn default_style() -> StyleView {
    StyleView {
        is_date_time: false,
        font: default_font(),
        wrap_text: false,
        horizontal_alignment: Alignment::General,
        number_format: None,
        fill_fg_color: None,
        fill_bg_color: None,
        borders: no_borders(),
    }
}

impl Default for ResolvedStyle {
    fn default() -> (s: ResolvedStyle)
        ensures
            s@ == default_style(),
    {
        ResolvedStyle {
            is_date_time: false,
            font: Font::default(),
            wrap_text: false,
            horizontal_alignment: Alignment::General,
            number_format: None,
            fill_fg_color: None,
            fill_bg_color: None,
            borders: Borders::default(),
        }
    }
}

impl Clone for ResolvedStyle {
    fn clone(&self) -> (s: ResolvedStyle)
        ensures
            s@ == self@,
    {
        ResolvedStyle {
            is_date_time: self.is_date_time,
            font: self.font.clone(),
            wrap_text: self.wrap_text,
            horizontal_alignment: self.horizontal_alignment,
            number_format: text::copy_opt(&self.number_format),
            fill_fg_color: color::copy_opt(&self.fill_fg_color),
            fill_bg_color: color::copy_opt(&self.fill_bg_color),
            borders: self.borders,
        }
    }
}

/// The styles of a workbook, by style ID.
#[derive(Debug)]
pub struct StyleSheet {
    styles: Vec<Arc<ResolvedStyle>>,
}

impl View for StyleSheet {
    type V = Seq<StyleView>;

    closed spec fn view(&self) -> Seq<StyleView> {
        self.styles@.map_values(|s: Arc<ResolvedStyle>| s@)
    }
}

impl StyleSheet {
    /// A stylesheet without styles.
    pub fn new() -> (s: StyleSheet)
        ensures
            s@ == Seq::<StyleView>::empty(),
    {
        let s = StyleSheet { styles: Vec::new() };
        assert(s@ =~= Seq::<StyleView>::empty());
        s
    }

    /// Adds a style under the next style ID.
    pub fn push(&mut self, style: Arc<ResolvedStyle>)
        ensures
            final(self)@ == old(self)@.push(style@),
    {
        self.styles.push(style);
        assert(self@ =~= old(self)@.push(style@));
    }

    /// How many styles there are.
    pub fn len(&self) -> (n: usize)
        ensures
            n == self@.len(),
    {
        self.styles.len()
    }

    /// The style with the given ID.
    pub fn get(&self, id: StyleId) -> (r: Option<&Arc<ResolvedStyle>>)
        ensures
            match r {
                Some(s) => id < self@.len() && s@ == self@[id as int],
                None => id >= self@.len(),
            },
    {
        if (id as usize) < self.styles.len() {
            Some(&self.styles[id as usize])
        } else {
            None
        }
    }

    /// Whether some style's fill refers to the theme.
    pub fn uses_theme_color(&self) -> (r: bool)
        ensures
            r == sheet_uses_theme(self@),
    {
        let mut i: usize = 0;
        while i < self.styles.len()
            invariant
                i <= self.styles@.len(),
                forall|k: int| 0 <= k < i ==> !style_uses_theme(#[trigger] self@[k]),
            decreases self.styles@.len() - i,
        {
            let style: &ResolvedStyle = &self.styles[i];
            let fg: bool = is_theme(&style.fill_fg_color);
            let bg: bool = is_theme(&style.fill_bg_color);
            assert(self@[i as int] == self.styles@[i as int]@);
            if fg || bg {
                assert(style_uses_theme(self@[i as int]));
                return true;
            }
            i += 1;
        }
        false
    }
}

fn is_theme(c: &Option<ColorRef>) -> (r: bool)
    ensures
        r == (color::color_opt(*c) matches Some(ColorView::Theme { .. })),
{
    match c {
        Some(ColorRef::Theme { .. }) => true,
        _ => false,
    }
}

/// Whether a style's fill refers to the theme.
pub open spec fn style_uses_theme(s: StyleView) -> bool {
    (s.fill_fg_color matches Some(ColorView::Theme { .. })) || (
    s.fill_bg_color matches Some(ColorView::Theme { .. }))
}

/// Whether some style's fill refers to the theme.
pub open spec fn sheet_uses_theme(styles: Seq<StyleView>) -> bool {
    exists|k: int| 0 <= k < styles.len() && style_uses_theme(#[trigger] styles[k])
}

/// Styles refer to the theme exactly if one of the colors of one of their fills, in front
/// or behind, is a color of the theme.
pub proof fn law_themes_are_referred_to_by_fills(styles: Seq<StyleView>)
    ensures
        sheet_uses_theme(styles) <==> exists|k: int|
            #![trigger styles[k]]
            0 <= k < styles.len() && ((styles[k].fill_fg_color matches Some(c) && c is Theme) || (
            styles[k].fill_bg_color matches Some(c) && c is Theme)),
{
    if sheet_uses_theme(styles) {
        let k = choose|k: int| 0 <= k < styles.len() && style_uses_theme(#[trigger] styles[k]);
        assert(style_uses_theme(styles[k]));
        assert((styles[k].fill_fg_color matches Some(c) && c is Theme) || (
        styles[k].fill_bg_color matches Some(c) && c is Theme));
    } else {
        assert forall|k: int| 0 <= k < styles.len() implies !style_uses_theme(
            #[trigger] styles[k],
        ) by {}
    }
}

} // verus!
