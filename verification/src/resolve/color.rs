//! Colors: what a color reference stands for.
use crate::model::color;
use crate::model::color::{ColorRef, ColorView, Rgb, ThemePalette};
use crate::number::Number;
use vstd::prelude::*;

verus! {

/// Whether adjusting a color's luminance is possible for every color and amount,
/// and depends on nothing but the color and how the amount is written.
pub open spec fn tints<F: Fn(Rgb, &Number) -> Rgb>(apply: F) -> bool {
    &&& forall|c: Rgb, n: &Number| #[trigger] call_requires(apply, (c, n))
    &&& forall|c: Rgb, n: &Number, m: &Number, a: Rgb, b: Rgb|
        #![trigger call_ensures(apply, (c, n), a), call_ensures(apply, (c, m), b)]
        n@ == m@ && call_ensures(apply, (c, n), a) && call_ensures(apply, (c, m), b) ==> a == b
}

/// Whether a color may become `r` by an amount written like `text`.
pub open spec fn may_become<F: Fn(Rgb, &Number) -> Rgb>(
    apply: F,
    c: Rgb,
    text: Seq<char>,
    r: Rgb,
) -> bool {
    exists|n: &Number| n@ == text && #[trigger] call_ensures(apply, (c, n), r)
}

/// What a color becomes by an amount.
pub open spec fn tinted<F: Fn(Rgb, &Number) -> Rgb>(apply: F, c: Rgb, text: Seq<char>) -> Rgb {
    choose|r: Rgb| may_become(apply, c, text, r)
}

/// The color that a color reference stands for: an ARGB text without its alpha, a
/// slot of the theme with its luminance adjusted, or an entry of the legacy
/// palette; nothing if there is no such color.
pub open spec fn resolved_color<F: Fn(Rgb, &Number) -> Rgb>(
    c: ColorView,
    theme: Option<ThemePalette>,
    apply: F,
) -> Option<Rgb> {
    match c {
        ColorView::Rgb(s) => color::hex_color(s, 8),
        ColorView::Theme { index, tint } => match theme {
            Some(p) => if index < 12 {
                match tint {
                    Some(t) => Some(tinted(apply, p.0@[index as int], t)),
                    None => Some(p.0@[index as int]),
                }
            } else {
                None
            },
            None => None,
        },
        ColorView::Indexed(i) => color::indexed_color(i),
    }
}

/// A color reference stands for the color that its text spells, without its opacity; for
/// the color of the theme at its index, as it is without a tint and as the tint makes it
/// otherwise; or for the entry of the legacy palette at its index. Without a theme, and
/// beyond its twelve colors, there is no color.
pub proof fn law_color_references_stand_for_colors<F: Fn(Rgb, &Number) -> Rgb>(
    c: Rgb,
    alpha: u8,
    p: ThemePalette,
    index: u32,
    n: &Number,
    r: Rgb,
    apply: F,
)
    requires
        tints(apply),
        index < 12 ==> call_ensures(apply, (p.0@[index as int], n), r),
    ensures
        resolved_color(
            ColorView::Rgb(
                color::hex_pair(alpha, true) + color::hex_pair(c.r, true) + color::hex_pair(
                    c.g,
                    true,
                ) + color::hex_pair(c.b, true),
            ),
            None,
            apply,
        ) == Some(c),
        resolved_color(ColorView::Theme { index, tint: None }, Some(p), apply) == if index < 12 {
            Some(p.0@[index as int])
        } else {
            None
        },
        resolved_color(ColorView::Theme { index, tint: Some(n@) }, Some(p), apply) == if index < 12 {
            Some(r)
        } else {
            None
        },
        resolved_color(ColorView::Theme { index, tint: None }, None, apply) is None,
        resolved_color(ColorView::Theme { index, tint: Some(n@) }, None, apply) is None,
        resolved_color(ColorView::Indexed(index), Some(p), apply) == color::indexed_color(index),
        resolved_color(ColorView::Indexed(index), None, apply) == color::indexed_color(index),
{
    color::law_hexadecimal_colors_read_back(c, alpha, true);
    if index < 12 {
        let base = p.0@[index as int];
        assert(may_become(apply, base, n@, r));
        let q = tinted(apply, base, n@);
        assert(may_become(apply, base, n@, q));
    }
}

/// Finds the color that a color reference stands for. `apply_tint` adjusts a
/// color's luminance.
pub fn resolve_color<F: Fn(Rgb, &Number) -> Rgb>(
    color: &ColorRef,
    theme: Option<&ThemePalette>,
    apply_tint: &F,
) -> (r: Option<Rgb>)
    requires
        tints(*apply_tint),
    ensures
        r == resolved_color(
            color@,
            (match theme {
                Some(p) => Some(*p),
                None => None,
            }),
            *apply_tint,
        ),
{
    match color {
        ColorRef::Rgb(s) => color::parse_argb_hex(s.as_str()),
        ColorRef::Theme { index, tint } => {
            let palette: &ThemePalette = match theme {
                Some(p) => p,
                None => {
                    return None;
                },
            };
            if *index >= 12 {
                return None;
            }
            let base: Rgb = palette.0[*index as usize];
            match tint {
                Some(t) => {
                    let c: Rgb = apply_tint(base, t);
                    assert(may_become(*apply_tint, base, t@, c));
                    assert(may_become(*apply_tint, base, t@, tinted(*apply_tint, base, t@)));
                    Some(c)
                },
                None => Some(base),
            }
        },
        ColorRef::Indexed(i) => color::lookup_indexed_color(*i),
    }
}

} // verus!
