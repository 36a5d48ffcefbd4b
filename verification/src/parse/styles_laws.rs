//! What the elements of a stylesheet part come to.
use crate::error::ErrorView;
use crate::model::color::ColorView;
use crate::model::style::{Alignment, Borders, FontView, StyleView};
use crate::number;
use crate::parse::number_format;
use crate::parse::part;
use crate::parse::styles;
use crate::parse::styles::{FillView, StylesParser, StylesState};
use crate::parse::xml;
use crate::parse::xml::{EventView, TagView};
use crate::text;
use vstd::prelude::*;

verus! {

/// Names of elements that are told apart.
proof fn lemma_names()
    ensures
        "fonts"@ != "numFmt"@,
        "fills"@ != "numFmt"@,
        "fills"@ != "fonts"@,
        "borders"@ != "numFmt"@,
        "borders"@ != "fonts"@,
        "borders"@ != "fills"@,
        "cellXfs"@ != "numFmt"@,
        "cellXfs"@ != "fonts"@,
        "cellXfs"@ != "fills"@,
        "cellXfs"@ != "borders"@,
        "font"@ != "numFmt"@,
        "font"@ != "fonts"@,
        "font"@ != "fills"@,
        "font"@ != "borders"@,
        "font"@ != "cellXfs"@,
        "fill"@ != "numFmt"@,
        "fill"@ != "fonts"@,
        "fill"@ != "fills"@,
        "fill"@ != "borders"@,
        "fill"@ != "cellXfs"@,
        "fill"@ != "font"@,
        "border"@ != "numFmt"@,
        "border"@ != "fonts"@,
        "border"@ != "fills"@,
        "border"@ != "borders"@,
        "border"@ != "cellXfs"@,
        "border"@ != "font"@,
        "border"@ != "fill"@,
        "sz"@ != "numFmt"@,
        "sz"@ != "fonts"@,
        "sz"@ != "fills"@,
        "sz"@ != "borders"@,
        "sz"@ != "cellXfs"@,
        "sz"@ != "font"@,
        "sz"@ != "fill"@,
        "sz"@ != "border"@,
        "b"@ != "numFmt"@,
        "b"@ != "fonts"@,
        "b"@ != "fills"@,
        "b"@ != "borders"@,
        "b"@ != "cellXfs"@,
        "b"@ != "font"@,
        "b"@ != "fill"@,
        "b"@ != "border"@,
        "b"@ != "sz"@,
        "fgColor"@ != "numFmt"@,
        "fgColor"@ != "fonts"@,
        "fgColor"@ != "fills"@,
        "fgColor"@ != "borders"@,
        "fgColor"@ != "cellXfs"@,
        "fgColor"@ != "font"@,
        "fgColor"@ != "fill"@,
        "fgColor"@ != "border"@,
        "fgColor"@ != "sz"@,
        "fgColor"@ != "b"@,
        "bgColor"@ != "numFmt"@,
        "bgColor"@ != "fonts"@,
        "bgColor"@ != "fills"@,
        "bgColor"@ != "borders"@,
        "bgColor"@ != "cellXfs"@,
        "bgColor"@ != "font"@,
        "bgColor"@ != "fill"@,
        "bgColor"@ != "border"@,
        "bgColor"@ != "sz"@,
        "bgColor"@ != "b"@,
        "bgColor"@ != "fgColor"@,
        "left"@ != "numFmt"@,
        "left"@ != "fonts"@,
        "left"@ != "fills"@,
        "left"@ != "borders"@,
        "left"@ != "cellXfs"@,
        "left"@ != "font"@,
        "left"@ != "fill"@,
        "left"@ != "border"@,
        "left"@ != "sz"@,
        "left"@ != "b"@,
        "left"@ != "fgColor"@,
        "left"@ != "bgColor"@,
        "right"@ != "numFmt"@,
        "right"@ != "fonts"@,
        "right"@ != "fills"@,
        "right"@ != "borders"@,
        "right"@ != "cellXfs"@,
        "right"@ != "font"@,
        "right"@ != "fill"@,
        "right"@ != "border"@,
        "right"@ != "sz"@,
        "right"@ != "b"@,
        "right"@ != "fgColor"@,
        "right"@ != "bgColor"@,
        "right"@ != "left"@,
        "top"@ != "numFmt"@,
        "top"@ != "fonts"@,
        "top"@ != "fills"@,
        "top"@ != "borders"@,
        "top"@ != "cellXfs"@,
        "top"@ != "font"@,
        "top"@ != "fill"@,
        "top"@ != "border"@,
        "top"@ != "sz"@,
        "top"@ != "b"@,
        "top"@ != "fgColor"@,
        "top"@ != "bgColor"@,
        "top"@ != "left"@,
        "top"@ != "right"@,
        "bottom"@ != "numFmt"@,
        "bottom"@ != "fonts"@,
        "bottom"@ != "fills"@,
        "bottom"@ != "borders"@,
        "bottom"@ != "cellXfs"@,
        "bottom"@ != "font"@,
        "bottom"@ != "fill"@,
        "bottom"@ != "border"@,
        "bottom"@ != "sz"@,
        "bottom"@ != "b"@,
        "bottom"@ != "fgColor"@,
        "bottom"@ != "bgColor"@,
        "bottom"@ != "left"@,
        "bottom"@ != "right"@,
        "bottom"@ != "top"@,
        "xf"@ != "numFmt"@,
        "xf"@ != "fonts"@,
        "xf"@ != "fills"@,
        "xf"@ != "borders"@,
        "xf"@ != "cellXfs"@,
        "xf"@ != "font"@,
        "xf"@ != "fill"@,
        "xf"@ != "border"@,
        "xf"@ != "sz"@,
        "xf"@ != "b"@,
        "xf"@ != "fgColor"@,
        "xf"@ != "bgColor"@,
        "xf"@ != "left"@,
        "xf"@ != "right"@,
        "xf"@ != "top"@,
        "xf"@ != "bottom"@,
        "alignment"@ != "numFmt"@,
        "alignment"@ != "fonts"@,
        "alignment"@ != "fills"@,
        "alignment"@ != "borders"@,
        "alignment"@ != "cellXfs"@,
        "alignment"@ != "font"@,
        "alignment"@ != "fill"@,
        "alignment"@ != "border"@,
        "alignment"@ != "sz"@,
        "alignment"@ != "b"@,
        "alignment"@ != "fgColor"@,
        "alignment"@ != "bgColor"@,
        "alignment"@ != "left"@,
        "alignment"@ != "right"@,
        "alignment"@ != "top"@,
        "alignment"@ != "bottom"@,
        "alignment"@ != "xf"@,
        "patternFill"@ != "numFmt"@,
        "patternFill"@ != "fonts"@,
        "patternFill"@ != "fills"@,
        "patternFill"@ != "borders"@,
        "patternFill"@ != "cellXfs"@,
        "patternFill"@ != "font"@,
        "patternFill"@ != "fill"@,
        "patternFill"@ != "border"@,
        "patternFill"@ != "sz"@,
        "patternFill"@ != "b"@,
        "patternFill"@ != "fgColor"@,
        "patternFill"@ != "bgColor"@,
        "patternFill"@ != "left"@,
        "patternFill"@ != "right"@,
        "patternFill"@ != "top"@,
        "patternFill"@ != "bottom"@,
        "patternFill"@ != "xf"@,
        "patternFill"@ != "alignment"@,
{
    reveal_strlit("fonts");
    reveal_strlit("numFmt");
    reveal_strlit("fills");
    reveal_strlit("borders");
    reveal_strlit("cellXfs");
    reveal_strlit("font");
    reveal_strlit("fill");
    reveal_strlit("border");
    reveal_strlit("sz");
    reveal_strlit("b");
    reveal_strlit("fgColor");
    reveal_strlit("bgColor");
    reveal_strlit("left");
    reveal_strlit("right");
    reveal_strlit("top");
    reveal_strlit("bottom");
    reveal_strlit("xf");
    reveal_strlit("alignment");
    reveal_strlit("patternFill");
    assert("fonts"@.len() == 5
        && "numFmt"@.len() == 6
        && "fills"@.len() == 5
        && "borders"@.len() == 7
        && "cellXfs"@.len() == 7
        && "font"@.len() == 4
        && "fill"@.len() == 4
        && "border"@.len() == 6
        && "sz"@.len() == 2
        && "b"@.len() == 1
        && "fgColor"@.len() == 7
        && "bgColor"@.len() == 7
        && "left"@.len() == 4
        && "right"@.len() == 5
        && "top"@.len() == 3
        && "bottom"@.len() == 6
        && "xf"@.len() == 2
        && "alignment"@.len() == 9
        && "patternFill"@.len() == 11);
    assert("fills"@[1] != "fonts"@[1]
        && "cellXfs"@[0] != "borders"@[0]
        && "fill"@[1] != "font"@[1]
        && "border"@[0] != "numFmt"@[0]
        && "fgColor"@[0] != "borders"@[0]
        && "fgColor"@[0] != "cellXfs"@[0]
        && "bgColor"@[1] != "borders"@[1]
        && "bgColor"@[0] != "cellXfs"@[0]
        && "bgColor"@[0] != "fgColor"@[0]
        && "left"@[0] != "font"@[0]
        && "left"@[0] != "fill"@[0]
        && "right"@[0] != "fonts"@[0]
        && "right"@[0] != "fills"@[0]
        && "bottom"@[0] != "numFmt"@[0]
        && "bottom"@[2] != "border"@[2]
        && "xf"@[0] != "sz"@[0]);
}

/// What comes of one event that is no error by itself.
#[verifier::spinoff_prover]
#[verifier::rlimit(60)]
proof fn lemma_step(st: StylesState, events: Seq<EventView>, path: Seq<char>, k: int)
    requires
        0 <= k < events.len(),
        xml::event_fault(events[k], path) is None,
    ensures
        part::state_after::<StylesParser>(st, events.take(0), path) == Ok::<StylesState, ErrorView>(
            st,
        ),
        events.take(events.len() as int) == events,
        part::state_after::<StylesParser>(st, events.take(k + 1), path) == match part::state_after::<
            StylesParser,
        >(st, events.take(k), path) {
            Ok(s) => styles::styles_step(s, events[k], path),
            Err(e) => Err(e),
        },
{
    part::lemma_step_at::<StylesParser>(st, events, path, k);
}

/// Elements that a stylesheet does not know, and text, change nothing.
#[verifier::spinoff_prover]
#[verifier::rlimit(60)]
pub proof fn law_other_elements_change_nothing(
    st: StylesState,
    tag: TagView,
    empty: bool,
    path: Seq<char>,
)
    requires
        !seq![
            "numFmt"@,
            "fonts"@,
            "fills"@,
            "borders"@,
            "cellXfs"@,
            "font"@,
            "fill"@,
            "border"@,
            "sz"@,
            "b"@,
            "fgColor"@,
            "bgColor"@,
            "left"@,
            "right"@,
            "top"@,
            "bottom"@,
            "xf"@,
            "alignment"@,
        ].contains(tag.name),
    ensures
        part::state_after::<StylesParser>(st, seq![xml::element(tag, empty)], path) == Ok::<
            StylesState,
            ErrorView,
        >(st),
        part::state_after::<StylesParser>(st, seq![EventView::End(tag.name)], path) == Ok::<
            StylesState,
            ErrorView,
        >(st),
{
    let known = seq![
        "numFmt"@,
        "fonts"@,
        "fills"@,
        "borders"@,
        "cellXfs"@,
        "font"@,
        "fill"@,
        "border"@,
        "sz"@,
        "b"@,
        "fgColor"@,
        "bgColor"@,
        "left"@,
        "right"@,
        "top"@,
        "bottom"@,
        "xf"@,
        "alignment"@,
    ];
    assert(known[0] == "numFmt"@ && known[1] == "fonts"@ && known[2] == "fills"@ && known[3]
        == "borders"@ && known[4] == "cellXfs"@ && known[5] == "font"@ && known[6] == "fill"@
        && known[7] == "border"@ && known[8] == "sz"@ && known[9] == "b"@ && known[10]
        == "fgColor"@ && known[11] == "bgColor"@ && known[12] == "left"@ && known[13] == "right"@
        && known[14] == "top"@ && known[15] == "bottom"@ && known[16] == "xf"@ && known[17]
        == "alignment"@);
    lemma_step(st, seq![xml::element(tag, empty)], path, 0);
    lemma_step(st, seq![EventView::End(tag.name)], path, 0);
}

// ---------------------------------------------------------------------------
// Fonts, fills, borders, number formats

/// A font has the size that its `sz` element states, and is bold if it has a `b`
/// element that does not say no. It goes behind the fonts that were there.
#[verifier::spinoff_prover]
#[verifier::rlimit(60)]
pub proof fn law_fonts_are_read(
    st: StylesState,
    fonts: TagView,
    font: TagView,
    sz: TagView,
    size: Seq<char>,
    b: TagView,
    bold: Option<Seq<char>>,
    empty: bool,
    path: Seq<char>,
)
    requires
        fonts.name == "fonts"@,
        font.name == "font"@,
        sz.name == "sz"@,
        xml::states(sz.attrs, "val"@, size),
        number::is_float_literal(size),
        b.name == "b"@,
        xml::states_opt(b.attrs, "val"@, bold),
    ensures
        part::state_after::<StylesParser>(
            st,
            seq![
                EventView::Start(fonts),
                EventView::Start(font),
                xml::element(sz, empty),
                xml::element(b, empty),
                EventView::End("font"@),
                EventView::End("fonts"@),
            ],
            path,
        ) == Ok::<StylesState, ErrorView>(
            StylesState {
                fonts: st.fonts.push(
                    FontView {
                        size_pt: size,
                        bold: bold != Some(seq!['0']) && bold != Some("false"@),
                    },
                ),
                in_fonts: false,
                cur_font: None,
                ..st
            },
        ),
{
    let events = seq![
        EventView::Start(fonts),
        EventView::Start(font),
        xml::element(sz, empty),
        xml::element(b, empty),
        EventView::End("font"@),
        EventView::End("fonts"@),
    ];
    lemma_names();
    reveal_strlit("0");
    assert("0"@ =~= seq!['0']);
    xml::law_attributes_are_found_by_name(sz.attrs, path, "val"@, size);
    xml::lemma_attribute(b.attrs, path, "val"@, bold);
    lemma_step(st, events, path, 0);
    lemma_step(st, events, path, 1);
    lemma_step(st, events, path, 2);
    lemma_step(st, events, path, 3);
    lemma_step(st, events, path, 4);
    lemma_step(st, events, path, 5);
}

/// A font about which nothing is said has eleven points and is not bold.
#[verifier::spinoff_prover]
#[verifier::rlimit(60)]
pub proof fn law_fonts_have_eleven_points_by_default(
    st: StylesState,
    fonts: TagView,
    font: TagView,
    path: Seq<char>,
)
    requires
        fonts.name == "fonts"@,
        font.name == "font"@,
    ensures
        ({
            let after = StylesState {
                fonts: st.fonts.push(FontView { size_pt: text::decimal(11), bold: false }),
                in_fonts: true,
                ..st
            };
            &&& part::state_after::<StylesParser>(
                st,
                seq![EventView::Start(fonts), EventView::Empty(font)],
                path,
            ) == Ok::<StylesState, ErrorView>(after)
            &&& part::state_after::<StylesParser>(
                st,
                seq![EventView::Start(fonts), EventView::Start(font), EventView::End("font"@)],
                path,
            ) == Ok::<StylesState, ErrorView>(StylesState { cur_font: None, ..after })
        }),
{
    let short = seq![EventView::Start(fonts), EventView::Empty(font)];
    let long = seq![EventView::Start(fonts), EventView::Start(font), EventView::End("font"@)];
    lemma_names();
    lemma_step(st, short, path, 0);
    lemma_step(st, short, path, 1);
    lemma_step(st, long, path, 0);
    lemma_step(st, long, path, 1);
    lemma_step(st, long, path, 2);
}

/// A fill about which nothing is said has no colors, and a border no sides; both count
/// among the others.
#[verifier::spinoff_prover]
#[verifier::rlimit(60)]
pub proof fn law_fills_and_borders_are_plain_by_default(
    st: StylesState,
    fill: TagView,
    border: TagView,
    path: Seq<char>,
)
    requires
        fill.name == "fill"@,
        border.name == "border"@,
    ensures
        st.in_fills ==> part::state_after::<StylesParser>(st, seq![EventView::Empty(fill)], path)
            == Ok::<StylesState, ErrorView>(
            StylesState { fills: st.fills.push(FillView { fg: None, bg: None }), ..st },
        ) && part::state_after::<StylesParser>(
            st,
            seq![EventView::Start(fill), EventView::End("fill"@)],
            path,
        ) == Ok::<StylesState, ErrorView>(
            StylesState {
                fills: st.fills.push(FillView { fg: None, bg: None }),
                cur_fill: None,
                ..st
            },
        ),
        st.in_borders ==> part::state_after::<StylesParser>(
            st,
            seq![EventView::Empty(border)],
            path,
        ) == Ok::<StylesState, ErrorView>(
            StylesState {
                borders: st.borders.push(
                    Borders { left: false, right: false, top: false, bottom: false },
                ),
                ..st
            },
        ) && part::state_after::<StylesParser>(
            st,
            seq![EventView::Start(border), EventView::End("border"@)],
            path,
        ) == Ok::<StylesState, ErrorView>(
            StylesState {
                borders: st.borders.push(
                    Borders { left: false, right: false, top: false, bottom: false },
                ),
                cur_border: None,
                ..st
            },
        ),
{
    let short = seq![EventView::Empty(fill)];
    let long = seq![EventView::Start(fill), EventView::End("fill"@)];
    let short_border = seq![EventView::Empty(border)];
    let long_border = seq![EventView::Start(border), EventView::End("border"@)];
    lemma_names();
    lemma_step(st, short, path, 0);
    lemma_step(st, long, path, 0);
    lemma_step(st, long, path, 1);
    lemma_step(st, short_border, path, 0);
    lemma_step(st, long_border, path, 0);
    lemma_step(st, long_border, path, 1);
}

/// Whether an element states a color: an ARGB text, an index into the theme with a tint
/// or without, an index into the legacy palette, or none of these.
pub open spec fn states_color(tag: TagView, c: Option<ColorView>) -> bool {
    match c {
        Some(ColorView::Rgb(s)) => xml::states(tag.attrs, "rgb"@, s),
        Some(ColorView::Theme { index, tint }) => {
            &&& xml::all_named_otherwise(tag.attrs, "rgb"@)
            &&& xml::states(tag.attrs, "theme"@, text::decimal(index as nat))
            &&& xml::states_opt(tag.attrs, "tint"@, tint)
            &&& tint matches Some(t) ==> number::is_float_literal(t)
        },
        Some(ColorView::Indexed(i)) => {
            &&& xml::all_named_otherwise(tag.attrs, "rgb"@)
            &&& xml::all_named_otherwise(tag.attrs, "theme"@)
            &&& xml::states(tag.attrs, "indexed"@, text::decimal(i as nat))
        },
        None => {
            &&& xml::all_named_otherwise(tag.attrs, "rgb"@)
            &&& xml::all_named_otherwise(tag.attrs, "theme"@)
            &&& xml::all_named_otherwise(tag.attrs, "indexed"@)
        },
    }
}

/// The color of an element is the one that it states: its ARGB text if it has one, else
/// the color of the theme with its tint, else that of the legacy palette.
pub proof fn law_colors_are_read(tag: TagView, c: Option<ColorView>, path: Seq<char>)
    requires
        states_color(tag, c),
        xml::are_sound(tag.attrs),
    ensures
        styles::color_of(tag, path) == Ok::<Option<ColorView>, ErrorView>(c),
{
    xml::lemma_sound(tag.attrs, path, "tint"@);
    xml::lemma_sound(tag.attrs, path, "indexed"@);
    xml::law_attributes_are_found_by_name(tag.attrs, path, "rgb"@, Seq::empty());
    xml::law_attributes_are_found_by_name(tag.attrs, path, "theme"@, Seq::empty());
    xml::law_attributes_are_found_by_name(tag.attrs, path, "indexed"@, Seq::empty());
    match c {
        Some(ColorView::Rgb(s)) => {
            xml::law_attributes_are_found_by_name(tag.attrs, path, "rgb"@, s);
        },
        Some(ColorView::Theme { index, tint }) => {
            let t = text::decimal(index as nat);
            xml::law_attributes_are_found_by_name(tag.attrs, path, "theme"@, t);
            xml::lemma_attribute(tag.attrs, path, "tint"@, tint);
            text::law_decimal_notation_reads_back(index as nat, u32::MAX as int);
        },
        Some(ColorView::Indexed(i)) => {
            let t = text::decimal(i as nat);
            xml::law_attributes_are_found_by_name(tag.attrs, path, "indexed"@, t);
            text::law_decimal_notation_reads_back(i as nat, u32::MAX as int);
        },
        None => {},
    }
}

/// A fill has the colors that its `fgColor` and `bgColor` elements state, each in its
/// own place. It goes behind the fills that were there.
#[verifier::spinoff_prover]
#[verifier::rlimit(60)]
pub proof fn law_fills_are_read(
    st: StylesState,
    fills: TagView,
    fill: TagView,
    pattern: TagView,
    fg: TagView,
    front: Option<ColorView>,
    bg: TagView,
    back: Option<ColorView>,
    empty: bool,
    path: Seq<char>,
)
    requires
        fills.name == "fills"@,
        fill.name == "fill"@,
        pattern.name == "patternFill"@,
        fg.name == "fgColor"@,
        bg.name == "bgColor"@,
        states_color(fg, front),
        states_color(bg, back),
        xml::are_sound(fg.attrs),
        xml::are_sound(bg.attrs),
    ensures
        part::state_after::<StylesParser>(
            StylesState { cur_font: None, ..st },
            seq![
                EventView::Start(fills),
                EventView::Start(fill),
                EventView::Start(pattern),
                xml::element(fg, empty),
                xml::element(bg, empty),
                EventView::End("patternFill"@),
                EventView::End("fill"@),
                EventView::End("fills"@),
            ],
            path,
        ) == Ok::<StylesState, ErrorView>(
            StylesState {
                fills: st.fills.push(FillView { fg: front, bg: back }),
                in_fills: false,
                cur_fill: None,
                cur_font: None,
                ..st
            },
        ),
{
    let events = seq![
        EventView::Start(fills),
        EventView::Start(fill),
        EventView::Start(pattern),
        xml::element(fg, empty),
        xml::element(bg, empty),
        EventView::End("patternFill"@),
        EventView::End("fill"@),
        EventView::End("fills"@),
    ];
    let start = StylesState { cur_font: None, ..st };
    lemma_names();
    law_colors_are_read(fg, front, path);
    law_colors_are_read(bg, back, path);
    lemma_step(start, events, path, 0);
    lemma_step(start, events, path, 1);
    lemma_step(start, events, path, 2);
    lemma_step(start, events, path, 3);
    lemma_step(start, events, path, 4);
    lemma_step(start, events, path, 5);
    lemma_step(start, events, path, 6);
    lemma_step(start, events, path, 7);
}

/// Whether a side of a border carries a line: it states a style other than `none`.
pub open spec fn carries_line(style: Option<Seq<char>>) -> bool {
    style is Some && style != Some("none"@)
}

proof fn lemma_side_step(
    st: StylesState,
    b: Borders,
    side: TagView,
    empty: bool,
    style: Option<Seq<char>>,
    path: Seq<char>,
)
    requires
        st.cur_border == Some(b),
        side.name == "left"@ || side.name == "right"@ || side.name == "top"@ || side.name
            == "bottom"@,
        xml::states_opt(side.attrs, "style"@, style),
    ensures
        styles::styles_step(st, xml::element(side, empty), path) == Ok::<StylesState, ErrorView>(
            StylesState {
                cur_border: Some(
                    Borders {
                        left: if side.name == "left"@ {
                            carries_line(style)
                        } else {
                            b.left
                        },
                        right: if side.name == "right"@ {
                            carries_line(style)
                        } else {
                            b.right
                        },
                        top: if side.name == "top"@ {
                            carries_line(style)
                        } else {
                            b.top
                        },
                        bottom: if side.name == "bottom"@ {
                            carries_line(style)
                        } else {
                            b.bottom
                        },
                    },
                ),
                ..st
            },
        ),
{
    lemma_names();
    xml::lemma_attribute(side.attrs, path, "style"@, style);
}

proof fn lemma_border_opens(
    st: StylesState,
    borders: TagView,
    border: TagView,
    path: Seq<char>,
)
    requires
        borders.name == "borders"@,
        border.name == "border"@,
    ensures
        ({
            let open = StylesState { in_borders: true, ..st };
            let bare = Borders { top: false, right: false, bottom: false, left: false };
            &&& styles::styles_step(st, EventView::Start(borders), path) == Ok::<
                StylesState,
                ErrorView,
            >(open)
            &&& styles::styles_step(open, EventView::Start(border), path) == Ok::<
                StylesState,
                ErrorView,
            >(StylesState { cur_border: Some(bare), ..open })
        }),
{
    lemma_names();
}

proof fn lemma_border_closes(st: StylesState, b: Borders, path: Seq<char>)
    requires
        st.in_borders,
        st.cur_border == Some(b),
    ensures
        ({
            let done = StylesState { borders: st.borders.push(b), cur_border: None, ..st };
            &&& styles::styles_step(st, EventView::End("border"@), path) == Ok::<
                StylesState,
                ErrorView,
            >(done)
            &&& styles::styles_step(done, EventView::End("borders"@), path) == Ok::<
                StylesState,
                ErrorView,
            >(StylesState { in_borders: false, ..done })
        }),
{
    lemma_names();
}

/// A border carries a line on each side whose element states a style other than `none`,
/// and on no other. It goes behind the borders that were there.
#[verifier::spinoff_prover]
#[verifier::rlimit(60)]
pub proof fn law_borders_are_read(
    st: StylesState,
    borders: TagView,
    border: TagView,
    left: TagView,
    l: Option<Seq<char>>,
    right: TagView,
    r: Option<Seq<char>>,
    top: TagView,
    t: Option<Seq<char>>,
    bottom: TagView,
    b: Option<Seq<char>>,
    empty: bool,
    path: Seq<char>,
)
    requires
        borders.name == "borders"@,
        border.name == "border"@,
        left.name == "left"@,
        right.name == "right"@,
        top.name == "top"@,
        bottom.name == "bottom"@,
        xml::states_opt(left.attrs, "style"@, l),
        xml::states_opt(right.attrs, "style"@, r),
        xml::states_opt(top.attrs, "style"@, t),
        xml::states_opt(bottom.attrs, "style"@, b),
    ensures
        part::state_after::<StylesParser>(
            st,
            seq![
                EventView::Start(borders),
                EventView::Start(border),
                xml::element(left, empty),
                xml::element(right, empty),
                xml::element(top, empty),
                xml::element(bottom, empty),
                EventView::End("border"@),
                EventView::End("borders"@),
            ],
            path,
        ) == Ok::<StylesState, ErrorView>(
            StylesState {
                borders: st.borders.push(
                    Borders {
                        top: carries_line(t),
                        right: carries_line(r),
                        bottom: carries_line(b),
                        left: carries_line(l),
                    },
                ),
                in_borders: false,
                cur_border: None,
                ..st
            },
        ),
{
    let events = seq![
        EventView::Start(borders),
        EventView::Start(border),
        xml::element(left, empty),
        xml::element(right, empty),
        xml::element(top, empty),
        xml::element(bottom, empty),
        EventView::End("border"@),
        EventView::End("borders"@),
    ];
    let bare = Borders { top: false, right: false, bottom: false, left: false };
    let st2 = StylesState { in_borders: true, cur_border: Some(bare), ..st };
    let b3 = Borders { left: carries_line(l), ..bare };
    let st3 = StylesState { cur_border: Some(b3), ..st2 };
    let b4 = Borders { right: carries_line(r), ..b3 };
    let st4 = StylesState { cur_border: Some(b4), ..st2 };
    let b5 = Borders { top: carries_line(t), ..b4 };
    let st5 = StylesState { cur_border: Some(b5), ..st2 };
    let b6 = Borders { bottom: carries_line(b), ..b5 };
    let st6 = StylesState { cur_border: Some(b6), ..st2 };
    assert("right"@ != "left"@ && "top"@ != "left"@ && "top"@ != "right"@ && "bottom"@ != "left"@
        && "bottom"@ != "right"@ && "bottom"@ != "top"@) by {
        lemma_names();
    }
    lemma_border_opens(st, borders, border, path);
    lemma_side_step(st2, bare, left, empty, l, path);
    lemma_side_step(st3, b3, right, empty, r, path);
    lemma_side_step(st4, b4, top, empty, t, path);
    lemma_side_step(st5, b5, bottom, empty, b, path);
    lemma_border_closes(st6, b6, path);
    lemma_step(st, events, path, 0);
    lemma_step(st, events, path, 1);
    lemma_step(st, events, path, 2);
    lemma_step(st, events, path, 3);
    lemma_step(st, events, path, 4);
    lemma_step(st, events, path, 5);
    lemma_step(st, events, path, 6);
    lemma_step(st, events, path, 7);
}

/// A `numFmt` element defines the code of its number, in place of one defined before,
/// and of no other.
pub proof fn law_number_formats_are_read(
    st: StylesState,
    tag: TagView,
    empty: bool,
    id: u32,
    code: Seq<char>,
    other: u32,
    path: Seq<char>,
)
    requires
        tag.name == "numFmt"@,
        xml::states(tag.attrs, "numFmtId"@, text::decimal(id as nat)),
        xml::states(tag.attrs, "formatCode"@, code),
    ensures
        part::state_after::<StylesParser>(st, seq![xml::element(tag, empty)], path) matches Ok(t)
            && t == (StylesState { num_fmts: t.num_fmts, ..st }) && styles::custom_code(
            t.num_fmts,
            id,
        ) == Some(code) && (other != id ==> styles::custom_code(t.num_fmts, other)
            == styles::custom_code(st.num_fmts, other)),
        styles::custom_code(styles::no_styles().num_fmts, id) is None,
{
    let events = seq![xml::element(tag, empty)];
    let s = text::decimal(id as nat);
    xml::law_attributes_are_found_by_name(tag.attrs, path, "numFmtId"@, s);
    xml::law_attributes_are_found_by_name(tag.attrs, path, "formatCode"@, code);
    text::law_decimal_notation_reads_back(id as nat, u32::MAX as int);
    lemma_step(st, events, path, 0);
    let t = st.num_fmts.push((id, code));
    assert(t.drop_last() =~= st.num_fmts);
}

// ---------------------------------------------------------------------------
// Formats

/// The item that an index selects, the first if there is no index, and a default beyond
/// the last.
pub open spec fn selected<T>(items: Seq<T>, index: Option<u32>, default: T) -> T {
    let i = match index {
        Some(i) => i as int,
        None => 0,
    };
    if i < items.len() {
        items[i]
    } else {
        default
    }
}

/// The text of an optional index in decimal notation.
pub open spec fn index_text(index: Option<u32>) -> Option<Seq<char>> {
    match index {
        Some(i) => Some(text::decimal(i as nat)),
        None => None,
    }
}

proof fn lemma_index(index: Option<u32>, max: int)
    requires
        max >= u32::MAX,
    ensures
        styles::index_or_zero(index_text(index), max) == match index {
            Some(i) => i as int,
            None => 0,
        },
{
    if let Some(i) = index {
        text::law_decimal_notation_reads_back(i as nat, max);
    }
}

/// The code of a number format: none for the general one, that of a built-in one, else
/// the one that the stylesheet defines.
pub open spec fn code_of(st: StylesState, id: u32) -> Option<Seq<char>> {
    if id == 0 {
        None
    } else if number_format::builtin_code(id) is Some {
        number_format::builtin_code(id)
    } else {
        styles::custom_code(st.num_fmts, id)
    }
}

/// The style that a number format and three indices select: the font, fill and border
/// at their places, the code of the number format, and whether that shows dates.
pub open spec fn stated_style(
    st: StylesState,
    num_fmt: Option<u32>,
    font: Option<u32>,
    fill: Option<u32>,
    border: Option<u32>,
) -> StyleView {
    let id = match num_fmt {
        Some(i) => i,
        None => 0,
    };
    let colors = selected(st.fills, fill, FillView { fg: None, bg: None });
    StyleView {
        is_date_time: number_format::is_date_format(id, styles::custom_code(st.num_fmts, id)),
        font: selected(st.fonts, font, FontView { size_pt: text::decimal(11), bold: false }),
        wrap_text: false,
        horizontal_alignment: Alignment::General,
        number_format: code_of(st, id),
        fill_fg_color: colors.fg,
        fill_bg_color: colors.bg,
        borders: selected(
            st.borders,
            border,
            Borders { top: false, right: false, bottom: false, left: false },
        ),
    }
}

/// Whether an `xf` element states a number format and three indices, each or none.
pub open spec fn states_format(
    xf: TagView,
    num_fmt: Option<u32>,
    font: Option<u32>,
    fill: Option<u32>,
    border: Option<u32>,
) -> bool {
    &&& xf.name == "xf"@
    &&& xml::states_opt(xf.attrs, "numFmtId"@, index_text(num_fmt))
    &&& xml::states_opt(xf.attrs, "fontId"@, index_text(font))
    &&& xml::states_opt(xf.attrs, "fillId"@, index_text(fill))
    &&& xml::states_opt(xf.attrs, "borderId"@, index_text(border))
}

proof fn lemma_xf_style(
    st: StylesState,
    xf: TagView,
    num_fmt: Option<u32>,
    font: Option<u32>,
    fill: Option<u32>,
    border: Option<u32>,
    path: Seq<char>,
)
    requires
        states_format(xf, num_fmt, font, fill, border),
    ensures
        styles::xf_style(st, xf, path) == Ok::<StyleView, ErrorView>(
            stated_style(st, num_fmt, font, fill, border),
        ),
{
    xml::lemma_attribute(xf.attrs, path, "numFmtId"@, index_text(num_fmt));
    xml::lemma_attribute(xf.attrs, path, "fontId"@, index_text(font));
    xml::lemma_attribute(xf.attrs, path, "fillId"@, index_text(fill));
    xml::lemma_attribute(xf.attrs, path, "borderId"@, index_text(border));
    lemma_index(num_fmt, u32::MAX as int);
    lemma_index(font, usize::MAX as int);
    lemma_index(fill, usize::MAX as int);
    lemma_index(border, usize::MAX as int);
}

proof fn lemma_formats_open(st: StylesState, formats: TagView, path: Seq<char>)
    requires
        formats.name == "cellXfs"@,
    ensures
        styles::styles_step(st, EventView::Start(formats), path) == Ok::<StylesState, ErrorView>(
            StylesState { in_cell_xfs: true, ..st },
        ),
{
    lemma_names();
}

proof fn lemma_xf_step(st: StylesState, xf: TagView, empty: bool, style: StyleView, path: Seq<char>)
    requires
        st.in_cell_xfs,
        xf.name == "xf"@,
        styles::xf_style(st, xf, path) == Ok::<StyleView, ErrorView>(style),
    ensures
        styles::styles_step(st, xml::element(xf, empty), path) == Ok::<StylesState, ErrorView>(
            StylesState { styles: st.styles.push(style), xf_open: !empty, ..st },
        ),
{
    lemma_names();
}

/// Every `xf` element of the cell formats adds a style behind those before it: the font,
/// fill and border that its indices select, the code of its number format and whether
/// that shows dates.
#[verifier::spinoff_prover]
#[verifier::rlimit(60)]
pub proof fn law_formats_are_read(
    st: StylesState,
    formats: TagView,
    xf: TagView,
    empty: bool,
    num_fmt: Option<u32>,
    font: Option<u32>,
    fill: Option<u32>,
    border: Option<u32>,
    path: Seq<char>,
)
    requires
        formats.name == "cellXfs"@,
        states_format(xf, num_fmt, font, fill, border),
    ensures
        part::state_after::<StylesParser>(
            st,
            seq![EventView::Start(formats), xml::element(xf, empty)],
            path,
        ) == Ok::<StylesState, ErrorView>(
            StylesState {
                styles: st.styles.push(stated_style(st, num_fmt, font, fill, border)),
                in_cell_xfs: true,
                xf_open: !empty,
                ..st
            },
        ),
{
    let events = seq![EventView::Start(formats), xml::element(xf, empty)];
    let open = StylesState { in_cell_xfs: true, ..st };
    lemma_formats_open(st, formats, path);
    lemma_xf_style(open, xf, num_fmt, font, fill, border, path);
    lemma_xf_step(open, xf, empty, stated_style(st, num_fmt, font, fill, border), path);
    lemma_step(st, events, path, 0);
    lemma_step(st, events, path, 1);
}

/// The `alignment` element of a format says whether its text wraps and how it is
/// aligned, and leaves everything else of the format, and every other format, as it is.
#[verifier::spinoff_prover]
#[verifier::rlimit(60)]
pub proof fn law_alignments_are_read(
    st: StylesState,
    alignment: TagView,
    empty: bool,
    wrap: Option<Seq<char>>,
    horizontal: Option<Seq<char>>,
    path: Seq<char>,
)
    requires
        st.xf_open,
        st.styles.len() > 0,
        alignment.name == "alignment"@,
        xml::states_opt(alignment.attrs, "wrapText"@, wrap),
        xml::states_opt(alignment.attrs, "horizontal"@, horizontal),
    ensures
        part::state_after::<StylesParser>(
            st,
            seq![xml::element(alignment, empty), EventView::End("xf"@)],
            path,
        ) == Ok::<StylesState, ErrorView>(
            StylesState {
                styles: st.styles.update(
                    st.styles.len() - 1,
                    StyleView {
                        wrap_text: wrap == Some(seq!['1']) || wrap == Some("true"@),
                        horizontal_alignment: styles::alignment_of(horizontal),
                        ..st.styles[st.styles.len() - 1]
                    },
                ),
                xf_open: false,
                ..st
            },
        ),
{
    let events = seq![xml::element(alignment, empty), EventView::End("xf"@)];
    lemma_names();
    reveal_strlit("1");
    assert("1"@ =~= seq!['1']);
    xml::lemma_attribute(alignment.attrs, path, "wrapText"@, wrap);
    xml::lemma_attribute(alignment.attrs, path, "horizontal"@, horizontal);
    lemma_step(st, events, path, 0);
    lemma_step(st, events, path, 1);
    let style = StyleView {
        wrap_text: wrap == Some(seq!['1']) || wrap == Some("true"@),
        horizontal_alignment: styles::alignment_of(horizontal),
        ..st.styles[st.styles.len() - 1]
    };
    assert(st.styles.drop_last().push(style) =~= st.styles.update(st.styles.len() - 1, style));
}

/// An `xf` element outside the cell formats is no style of a cell.
#[verifier::spinoff_prover]
#[verifier::rlimit(60)]
pub proof fn law_other_formats_do_not_count(
    st: StylesState,
    xf: TagView,
    empty: bool,
    path: Seq<char>,
)
    requires
        !st.in_cell_xfs,
        xf.name == "xf"@,
    ensures
        part::state_after::<StylesParser>(st, seq![xml::element(xf, empty)], path) == Ok::<
            StylesState,
            ErrorView,
        >(st),
        part::state_after::<StylesParser>(
            st,
            seq![EventView::End("cellXfs"@)],
            path,
        ) == Ok::<StylesState, ErrorView>(st),
        !styles::no_styles().in_cell_xfs,
{
    lemma_names();
    lemma_step(st, seq![xml::element(xf, empty)], path, 0);
    lemma_step(st, seq![EventView::End("cellXfs"@)], path, 0);
}

/// The styles of a stylesheet are those that its cell formats added, in their order:
/// what has been read stays, and reading on adds to it.
pub proof fn law_styles_are_the_formats_in_order(
    events: Seq<EventView>,
    more: Seq<EventView>,
    path: Seq<char>,
)
    ensures
        part::state_after::<StylesParser>(styles::no_styles(), events, path) matches Ok(st) ==> {
            &&& styles::styles_of(events, path) == Ok::<Seq<StyleView>, ErrorView>(st.styles)
            &&& styles::styles_of(events + more, path) == match part::state_after::<StylesParser>(
                st,
                more,
                path,
            ) {
                Ok(t) => Ok(t.styles),
                Err(e) => Err(e),
            }
        },
{
    part::lemma_continued::<StylesParser>(styles::no_styles(), events, more, path);
}

// ---------------------------------------------------------------------------
// Alignments

/// Names of alignments that are told apart.
proof fn lemma_alignment_names()
    ensures
        "center"@ != "left"@,
        "right"@ != "left"@,
        "right"@ != "center"@,
        "fill"@ != "left"@,
        "fill"@ != "center"@,
        "fill"@ != "right"@,
        "justify"@ != "left"@,
        "justify"@ != "center"@,
        "justify"@ != "right"@,
        "justify"@ != "fill"@,
        "centerContinuous"@ != "left"@,
        "centerContinuous"@ != "center"@,
        "centerContinuous"@ != "right"@,
        "centerContinuous"@ != "fill"@,
        "centerContinuous"@ != "justify"@,
        "distributed"@ != "left"@,
        "distributed"@ != "center"@,
        "distributed"@ != "right"@,
        "distributed"@ != "fill"@,
        "distributed"@ != "justify"@,
        "distributed"@ != "centerContinuous"@,
        "general"@ != "left"@,
        "general"@ != "center"@,
        "general"@ != "right"@,
        "general"@ != "fill"@,
        "general"@ != "justify"@,
        "general"@ != "centerContinuous"@,
        "general"@ != "distributed"@,
{
    reveal_strlit("center");
    reveal_strlit("left");
    reveal_strlit("right");
    reveal_strlit("fill");
    reveal_strlit("justify");
    reveal_strlit("centerContinuous");
    reveal_strlit("distributed");
    reveal_strlit("general");
    assert("center"@.len() == 6
        && "left"@.len() == 4
        && "right"@.len() == 5
        && "fill"@.len() == 4
        && "justify"@.len() == 7
        && "centerContinuous"@.len() == 16
        && "distributed"@.len() == 11
        && "general"@.len() == 7);
    assert("fill"@[0] != "left"@[0]
        && "general"@[0] != "justify"@[0]);
}

/// The name that an alignment is written with reads as that alignment, and any other
/// text, or none, as the general one.
pub proof fn law_alignments_read_back(a: Alignment, other: Option<Seq<char>>)
    requires
        other matches Some(s) ==> forall|b: Alignment| s != #[trigger] crate::json::alignment_name(b),
    ensures
        styles::alignment_of(Some(crate::json::alignment_name(a))) == a,
        styles::alignment_of(other) == Alignment::General,
{
    lemma_alignment_names();
    if let Some(s) = other {
        assert(s != crate::json::alignment_name(Alignment::Left));
        assert(s != crate::json::alignment_name(Alignment::Center));
        assert(s != crate::json::alignment_name(Alignment::Right));
        assert(s != crate::json::alignment_name(Alignment::Fill));
        assert(s != crate::json::alignment_name(Alignment::Justify));
        assert(s != crate::json::alignment_name(Alignment::CenterContinuous));
        assert(s != crate::json::alignment_name(Alignment::Distributed));
    }
}

/// The names of alignments are those of the file format.
pub proof fn law_alignments_have_their_names()
    ensures
        styles::alignment_of(Some("left"@)) == Alignment::Left,
        styles::alignment_of(Some("center"@)) == Alignment::Center,
        styles::alignment_of(Some("right"@)) == Alignment::Right,
        styles::alignment_of(Some("fill"@)) == Alignment::Fill,
        styles::alignment_of(Some("justify"@)) == Alignment::Justify,
        styles::alignment_of(Some("centerContinuous"@)) == Alignment::CenterContinuous,
        styles::alignment_of(Some("distributed"@)) == Alignment::Distributed,
        styles::alignment_of(Some("general"@)) == Alignment::General,
{
    lemma_alignment_names();
}

} // verus!
