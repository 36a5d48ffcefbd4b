use xlsxparser::model::color::{
    lookup_indexed_color, parse_argb_hex, parse_hex6, rgb, ColorRef, Rgb, ThemePalette,
};
use xlsxparser::number::Number;
use xlsxparser::resolve::color::resolve_color;

/// Adjusts the luminance of the one color and by the one amount that occur below.
fn apply_tint(base: Rgb, tint: &Number) -> Rgb {
    assert_eq!(base, rgb_val(0x4F, 0x81, 0xBD));
    assert_eq!(tint.as_str(), "-0.25");
    rgb_val(0x37, 0x60, 0x92)
}

fn rgb_val(r: u8, g: u8, b: u8) -> Rgb {
    Rgb { r, g, b }
}

#[test]
fn rgb_const_fn_decomposes_a_hex_literal() {
    assert_eq!(rgb(0x4F81BD), rgb_val(0x4F, 0x81, 0xBD));
    assert_eq!(rgb(0x000000), rgb_val(0x00, 0x00, 0x00));
    assert_eq!(rgb(0xFFFFFF), rgb_val(0xFF, 0xFF, 0xFF));
}

#[test]
fn lookup_indexed_color_covers_the_table_and_boundaries() {
    assert_eq!(lookup_indexed_color(0), Some(rgb_val(0x00, 0x00, 0x00)));
    assert_eq!(lookup_indexed_color(63), Some(rgb_val(0x33, 0x33, 0x33)));
    assert_eq!(lookup_indexed_color(64), Some(rgb_val(0x00, 0x00, 0x00)));
    assert_eq!(lookup_indexed_color(65), Some(rgb_val(0xFF, 0xFF, 0xFF)));
    assert_eq!(lookup_indexed_color(66), None);
    assert_eq!(lookup_indexed_color(u32::MAX), None);
}

#[test]
fn resolve_color_rgb_variant() {
    let color = ColorRef::Rgb("FFFF0000".to_string());
    assert_eq!(resolve_color(&color, None, &apply_tint), Some(rgb_val(0xFF, 0x00, 0x00)));
}

#[test]
fn resolve_color_rgb_variant_invalid_hex_is_none() {
    let color = ColorRef::Rgb("not-a-color".to_string());
    assert_eq!(resolve_color(&color, None, &apply_tint), None);
}

#[test]
fn resolve_color_rgb_variant_invalid_alpha_digits_is_none() {
    let color = ColorRef::Rgb("GGFF0000".to_string());
    assert_eq!(resolve_color(&color, None, &apply_tint), None);
}

#[test]
fn resolve_color_rgb_variant_multibyte_utf8_at_the_expected_byte_length_does_not_panic() {
    let multibyte = "a€1234";
    assert_eq!(multibyte.len(), 8);
    let color = ColorRef::Rgb(multibyte.to_string());
    assert_eq!(resolve_color(&color, None, &apply_tint), None);
}

fn office_palette() -> ThemePalette {
    ThemePalette([
        rgb_val(0xFF, 0xFF, 0xFF), // 0: lt1
        rgb_val(0x00, 0x00, 0x00), // 1: dk1
        rgb_val(0xEE, 0xEC, 0xE1), // 2: lt2
        rgb_val(0x1F, 0x49, 0x7D), // 3: dk2
        rgb_val(0x4F, 0x81, 0xBD), // 4: accent1
        rgb_val(0xC0, 0x50, 0x4D), // 5: accent2
        rgb_val(0x9B, 0xBB, 0x59), // 6: accent3
        rgb_val(0x80, 0x64, 0xA2), // 7: accent4
        rgb_val(0x4B, 0xAC, 0xC6), // 8: accent5
        rgb_val(0xF7, 0x96, 0x46), // 9: accent6
        rgb_val(0x00, 0x00, 0xFF), // 10: hlink
        rgb_val(0x80, 0x00, 0x80), // 11: folHlink
    ])
}

#[test]
fn resolve_color_theme_variant_with_tint() {
    let color = ColorRef::Theme {
        index: 4,
        tint: Some(Number::parse("-0.25").unwrap()),
    };
    let palette = office_palette();
    assert_eq!(
        resolve_color(&color, Some(&palette), &apply_tint),
        Some(rgb_val(0x37, 0x60, 0x92))
    );
}

#[test]
fn resolve_color_theme_variant_without_tint_returns_base() {
    let color = ColorRef::Theme {
        index: 1,
        tint: None,
    };
    let palette = office_palette();
    assert_eq!(
        resolve_color(&color, Some(&palette), &apply_tint),
        Some(rgb_val(0x00, 0x00, 0x00))
    );
}

#[test]
fn resolve_color_theme_variant_without_a_theme_is_none() {
    let color = ColorRef::Theme {
        index: 4,
        tint: None,
    };
    assert_eq!(resolve_color(&color, None, &apply_tint), None);
}

#[test]
fn resolve_color_theme_variant_out_of_range_index_is_none() {
    let color = ColorRef::Theme {
        index: 12,
        tint: None,
    };
    let palette = office_palette();
    assert_eq!(resolve_color(&color, Some(&palette), &apply_tint), None);
}

#[test]
fn resolve_color_indexed_variant_delegates_to_lookup_indexed_color() {
    assert_eq!(
        resolve_color(&ColorRef::Indexed(64), None, &apply_tint),
        lookup_indexed_color(64)
    );
    assert_eq!(
        resolve_color(&ColorRef::Indexed(200), None, &apply_tint),
        lookup_indexed_color(200)
    );
}

#[test]
fn color_texts_take_hexadecimal_digits_only() {
    assert_eq!(parse_argb_hex("80123456"), Some(Rgb { r: 0x12, g: 0x34, b: 0x56 }));
    assert_eq!(parse_argb_hex("+0123456"), None);
    assert_eq!(parse_argb_hex("123456"), None);
    assert_eq!(parse_hex6("4f81BD"), Some(Rgb { r: 0x4F, g: 0x81, b: 0xBD }));
    assert_eq!(parse_hex6("+F81BD"), None);
    assert_eq!(parse_hex6("4F81BD00"), None);
}
