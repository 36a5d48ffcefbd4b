use std::sync::Arc;
use xlsxparser::json::{
    alignment_tag, anchor_to_json, cell_to_json, cell_value_to_json, format_date_time,
    image_to_json, is_one, visibility_tag, JsonAnchor, JsonBorders, JsonCell, JsonCellValue,
    JsonColorRef, JsonExtent, JsonFont, JsonHyperlink, JsonMarker, JsonStyle,
};
use xlsxparser::model::cell::{Cell, CellRef, CellValue, DateTimeValue};
use xlsxparser::model::color::ColorRef;
use xlsxparser::model::range::ColWidthRange;
use xlsxparser::model::region::MergedRegion;
use xlsxparser::model::sheet::{
    AnchorMarker, Hyperlink, HyperlinkRange, Image, ImageAnchor, ImageExtent, Sheet,
    SheetVisibility,
};
use xlsxparser::model::style::{Alignment, Borders, Font, ResolvedStyle};
use xlsxparser::number::Number;
use xlsxparser::parse::iso8601::parse_iso8601_datetime;

fn num(s: &str) -> Number {
    Number::parse(s).unwrap()
}

fn sheet_with_one_cell(name: &str, value: Option<CellValue>) -> Sheet {
    let mut sheet = Sheet::new(name.to_string(), SheetVisibility::Visible);
    sheet.insert_cell(CellRef { row: 1, col: 1 }, Cell { value, style: None });
    sheet
}

fn sheet_with_styled_cell(value: CellValue, style: ResolvedStyle) -> Sheet {
    let mut sheet = Sheet::new("Sheet1".into(), SheetVisibility::Visible);
    sheet.insert_cell(
        CellRef { row: 1, col: 1 },
        Cell {
            value: Some(value),
            style: Some(Arc::new(style)),
        },
    );
    sheet
}

/// The records of a sheet's cells.
fn records(sheet: &Sheet) -> Vec<JsonCell> {
    sheet
        .iter_cells()
        .into_iter()
        .map(|(at, cell)| {
            let finite = match &cell.value {
                Some(CellValue::Number(n)) => n.as_str().parse::<f64>().unwrap().is_finite(),
                _ => true,
            };
            cell_to_json(sheet, at, cell, finite)
        })
        .collect()
}

fn style_record(sheet: &Sheet) -> JsonStyle {
    records(sheet).remove(0).style.unwrap()
}

#[test]
fn single_numeric_cell_round_trips_through_json_string() {
    let sheet = sheet_with_one_cell("Sheet1", Some(CellValue::Number(num("42.0"))));
    assert_eq!(sheet.name, "Sheet1");
    assert_eq!(visibility_tag(sheet.visibility), "visible");
    assert_eq!((sheet.max_row, sheet.max_col), (1, 1));
    assert_eq!(sheet.default_col_width(), None);
    assert!(sheet.col_width_ranges().is_empty());
    assert!(sheet.images().is_empty());
    assert_eq!(
        records(&sheet),
        vec![JsonCell {
            row: 1,
            col: 1,
            value: JsonCellValue::Number(num("42.0")),
            row_span: 1,
            col_span: 1,
            style: None,
            hyperlink: None,
        }]
    );
}

#[test]
fn styled_cell_reports_font_and_wrap_text_nested_under_style() {
    let sheet = sheet_with_styled_cell(
        CellValue::Number(num("1.0")),
        ResolvedStyle {
            is_date_time: false,
            font: Font {
                size_pt: num("14.0"),
                bold: true,
            },
            wrap_text: true,
            ..Default::default()
        },
    );
    assert_eq!(
        style_record(&sheet),
        JsonStyle {
            font: JsonFont {
                size_pt: num("14.0"),
                bold: true
            },
            wrap_text: true,
            alignment: "general",
            number_format: None,
            fill_fg_color: None,
            fill_bg_color: None,
            borders: None,
        }
    );
}

#[test]
fn styled_cell_with_number_format_reports_it_nested_under_style() {
    let sheet = sheet_with_styled_cell(
        CellValue::Number(num("0.5")),
        ResolvedStyle {
            number_format: Some("0%".to_string()),
            ..Default::default()
        },
    );
    assert_eq!(style_record(&sheet).number_format.as_deref(), Some("0%"));
}

#[test]
fn styled_cell_without_number_format_omits_the_field_entirely() {
    let sheet = sheet_with_styled_cell(CellValue::Number(num("1.0")), ResolvedStyle::default());
    assert!(style_record(&sheet).number_format.is_none());
}

#[test]
fn styled_cell_with_rgb_fill_reports_it_tagged_under_style() {
    let sheet = sheet_with_styled_cell(
        CellValue::Number(num("1.0")),
        ResolvedStyle {
            fill_fg_color: Some(ColorRef::Rgb("FFFF0000".to_string())),
            fill_bg_color: Some(ColorRef::Rgb("FF00FF00".to_string())),
            ..Default::default()
        },
    );
    let style = style_record(&sheet);
    assert_eq!(style.fill_fg_color, Some(JsonColorRef::Rgb("FFFF0000".to_string())));
    assert_eq!(style.fill_bg_color, Some(JsonColorRef::Rgb("FF00FF00".to_string())));
}

#[test]
fn styled_cell_with_theme_and_tint_fill_reports_both() {
    let sheet = sheet_with_styled_cell(
        CellValue::Number(num("1.0")),
        ResolvedStyle {
            fill_fg_color: Some(ColorRef::Theme {
                index: 4,
                tint: Some(num("-0.25")),
            }),
            ..Default::default()
        },
    );
    assert_eq!(
        style_record(&sheet).fill_fg_color,
        Some(JsonColorRef::Theme {
            index: 4,
            tint: Some(num("-0.25"))
        })
    );
}

#[test]
fn styled_cell_with_theme_fill_and_no_tint_reports_tint_as_null() {
    let sheet = sheet_with_styled_cell(
        CellValue::Number(num("1.0")),
        ResolvedStyle {
            fill_fg_color: Some(ColorRef::Theme {
                index: 1,
                tint: None,
            }),
            ..Default::default()
        },
    );
    assert_eq!(
        style_record(&sheet).fill_fg_color,
        Some(JsonColorRef::Theme {
            index: 1,
            tint: None
        })
    );
}

#[test]
fn styled_cell_with_indexed_fill_reports_it() {
    let sheet = sheet_with_styled_cell(
        CellValue::Number(num("1.0")),
        ResolvedStyle {
            fill_fg_color: Some(ColorRef::Indexed(64)),
            ..Default::default()
        },
    );
    assert_eq!(style_record(&sheet).fill_fg_color, Some(JsonColorRef::Indexed(64)));
}

#[test]
fn styled_cell_without_fill_color_omits_both_fields_entirely() {
    let sheet = sheet_with_styled_cell(CellValue::Number(num("1.0")), ResolvedStyle::default());
    let style = style_record(&sheet);
    assert!(style.fill_fg_color.is_none());
    assert!(style.fill_bg_color.is_none());
}

#[test]
fn styled_cell_with_borders_reports_all_four_sides_together() {
    let sheet = sheet_with_styled_cell(
        CellValue::Number(num("1.0")),
        ResolvedStyle {
            borders: Borders {
                top: true,
                right: false,
                bottom: false,
                left: false,
            },
            ..Default::default()
        },
    );
    assert_eq!(
        style_record(&sheet).borders,
        Some(JsonBorders {
            top: true,
            right: false,
            bottom: false,
            left: false
        })
    );
}

#[test]
fn styled_cell_without_any_border_omits_the_field_entirely() {
    let sheet = sheet_with_styled_cell(CellValue::Number(num("1.0")), ResolvedStyle::default());
    assert!(style_record(&sheet).borders.is_none());
}

#[test]
fn cell_with_hyperlink_reports_it_nested_and_omits_absent_fields() {
    let mut sheet = sheet_with_one_cell("Sheet1", Some(CellValue::Number(num("1.0"))));
    sheet.finalize_hyperlinks(vec![HyperlinkRange {
        start: CellRef { row: 1, col: 1 },
        end: CellRef { row: 1, col: 1 },
        hyperlink: Hyperlink {
            target: Some("https://example.com/".to_string()),
            location: None,
            tooltip: Some("Visit example".to_string()),
        },
    }]);
    assert_eq!(
        records(&sheet)[0].hyperlink,
        Some(JsonHyperlink {
            target: Some("https://example.com/".to_string()),
            location: None,
            tooltip: Some("Visit example".to_string())
        })
    );
}

#[test]
fn cell_without_hyperlink_omits_the_field_entirely() {
    let sheet = sheet_with_one_cell("Sheet1", Some(CellValue::Number(num("1.0"))));
    assert!(records(&sheet)[0].hyperlink.is_none());
}

#[test]
fn alignment_tag_covers_every_variant() {
    assert_eq!(alignment_tag(Alignment::General), "general");
    assert_eq!(alignment_tag(Alignment::Left), "left");
    assert_eq!(alignment_tag(Alignment::Center), "center");
    assert_eq!(alignment_tag(Alignment::Right), "right");
    assert_eq!(alignment_tag(Alignment::Fill), "fill");
    assert_eq!(alignment_tag(Alignment::Justify), "justify");
    assert_eq!(
        alignment_tag(Alignment::CenterContinuous),
        "centerContinuous"
    );
    assert_eq!(alignment_tag(Alignment::Distributed), "distributed");
}

#[test]
fn unstyled_cell_omits_the_style_field_entirely() {
    let sheet = sheet_with_one_cell("Sheet1", Some(CellValue::Number(num("1.0"))));
    assert!(records(&sheet)[0].style.is_none());
}

#[test]
fn column_widths_serialize_as_a_sheet_level_array_not_per_cell() {
    let mut sheet = sheet_with_one_cell("Sheet1", Some(CellValue::Number(num("1.0"))));
    let ranges = vec![
        ColWidthRange {
            min: 1,
            max: 5,
            width: num("12.0"),
        },
        ColWidthRange {
            min: 10,
            max: 20,
            width: num("20.0"),
        },
    ];
    sheet.set_col_widths(ranges.clone(), Some(num("8.43")));
    assert_eq!(sheet.default_col_width(), Some(&num("8.43")));
    assert_eq!(sheet.col_width_ranges(), &ranges);
}

#[test]
fn merged_cell_reports_span_and_excludes_virtual_coordinates() {
    let mut sheet = Sheet::new("Sheet1".into(), SheetVisibility::Visible);
    sheet.insert_cell(
        CellRef { row: 1, col: 1 },
        Cell {
            value: Some(CellValue::Text(Arc::new("merged".to_string()))),
            style: None,
        },
    );
    sheet.insert_merge(MergedRegion {
        start: CellRef { row: 1, col: 1 },
        end: CellRef { row: 2, col: 3 },
    });
    let cells = records(&sheet);
    assert_eq!(cells.len(), 1, "virtual coordinates must not appear");
    assert_eq!(cells[0].row_span, 2);
    assert_eq!(cells[0].col_span, 3);
}

#[test]
fn unmerged_cell_omits_span_fields() {
    let sheet = sheet_with_one_cell("Sheet1", Some(CellValue::Number(num("1.0"))));
    let cell = &records(&sheet)[0];
    assert!(is_one(&cell.row_span));
    assert!(is_one(&cell.col_span));
    assert!(!is_one(&2));
}

#[test]
fn each_cell_value_variant_serializes_with_expected_tag() {
    assert_eq!(
        cell_value_to_json(&Some(CellValue::Number(num("1.5"))), true),
        JsonCellValue::Number(num("1.5"))
    );
    assert_eq!(
        cell_value_to_json(&Some(CellValue::Text(Arc::new("hi".to_string()))), true),
        JsonCellValue::Text(Arc::new("hi".to_string()))
    );
    assert_eq!(
        cell_value_to_json(&Some(CellValue::Boolean(true)), true),
        JsonCellValue::Boolean(true)
    );
    assert_eq!(
        cell_value_to_json(&Some(CellValue::Error("#DIV/0!".into())), true),
        JsonCellValue::Error("#DIV/0!".into())
    );
}

#[test]
fn formatting_only_cell_serializes_as_empty() {
    let mut sheet = Sheet::new("Sheet1".into(), SheetVisibility::Visible);
    sheet.insert_cell(
        CellRef { row: 1, col: 1 },
        Cell {
            value: None,
            style: Some(Arc::new(ResolvedStyle {
                is_date_time: false,
                ..Default::default()
            })),
        },
    );
    assert_eq!(records(&sheet)[0].value, JsonCellValue::Empty);
}

#[test]
fn non_finite_numbers_fall_back_to_empty_without_erroring() {
    for n in ["NaN", "inf", "-inf", "1e999"] {
        let sheet = sheet_with_one_cell("Sheet1", Some(CellValue::Number(num(n))));
        assert_eq!(records(&sheet)[0].value, JsonCellValue::Empty, "n = {n}");
    }
}

#[test]
fn date_time_value_serializes_as_iso_8601_without_fractional_seconds() {
    let dt = DateTimeValue {
        year: 2024,
        month: 1,
        day: 5,
        hour: 13,
        minute: 45,
        second: 30,
    };
    assert_eq!(
        cell_value_to_json(&Some(CellValue::DateTime(dt)), true),
        JsonCellValue::DateTime("2024-01-05T13:45:30".into())
    );
}

#[test]
fn date_time_value_pads_single_digit_calendar_fields() {
    let dt = DateTimeValue {
        year: 2024,
        month: 1,
        day: 5,
        hour: 3,
        minute: 5,
        second: 9,
    };
    assert_eq!(format_date_time(&dt), "2024-01-05T03:05:09");
}

#[test]
fn years_of_any_length_and_sign_are_padded_to_four_places() {
    for year in [0, 7, 999, 1904, 12345, -1, -42, -12345, i32::MIN] {
        let dt = DateTimeValue {
            year,
            month: 12,
            day: 31,
            hour: 23,
            minute: 59,
            second: 58,
        };
        assert_eq!(format_date_time(&dt), format!("{year:04}-12-31T23:59:58"));
    }
}

#[test]
fn styled_date_time_cell_round_trips_through_json_string() {
    let sheet = sheet_with_one_cell(
        "Sheet1",
        Some(CellValue::DateTime(DateTimeValue {
            year: 2023,
            month: 3,
            day: 15,
            hour: 0,
            minute: 0,
            second: 0,
        })),
    );
    assert_eq!(
        records(&sheet)[0].value,
        JsonCellValue::DateTime("2023-03-15T00:00:00".to_string())
    );
}

#[test]
fn hidden_and_very_hidden_sheets_report_visibility() {
    assert_eq!(visibility_tag(SheetVisibility::Visible), "visible");
    assert_eq!(visibility_tag(SheetVisibility::Hidden), "hidden");
    assert_eq!(visibility_tag(SheetVisibility::VeryHidden), "veryHidden");
}

#[test]
fn images_keep_their_anchor_target_and_hyperlink() {
    let from = AnchorMarker {
        cell: CellRef { row: 3, col: 2 },
        col_off: 10,
        row_off: -20,
    };
    let one = ImageAnchor::OneCell {
        from,
        ext: ImageExtent { cx: 5, cy: 6 },
    };
    let record = image_to_json(&Image {
        anchor: one,
        target: "xl/media/image1.png".to_string(),
        hyperlink: None,
    });
    let marker = JsonMarker {
        row: 3,
        col: 2,
        col_off: 10,
        row_off: -20,
    };
    assert_eq!(
        record.anchor,
        JsonAnchor::OneCell {
            from: marker,
            ext: JsonExtent { cx: 5, cy: 6 }
        }
    );
    assert_eq!(record.target, "xl/media/image1.png");
    assert_eq!(record.hyperlink, None);
    assert_eq!(
        anchor_to_json(&ImageAnchor::TwoCell { from, to: from }),
        JsonAnchor::TwoCell {
            from: marker,
            to: marker
        }
    );
}

#[test]
fn a_written_date_reads_back() {
    for year in [0, 7, 1899, 2024, 12_345, i32::MAX] {
        let dt = DateTimeValue {
            year,
            month: 2,
            day: 31,
            hour: 23,
            minute: 0,
            second: 59,
        };
        let text = format_date_time(&dt);
        assert_eq!(parse_iso8601_datetime(&text, "sheet.xml", false).unwrap(), dt);
        assert_eq!(parse_iso8601_datetime(&text, "sheet.xml", true).unwrap(), dt);
    }
}

#[test]
fn a_written_year_with_a_sign_does_not_read() {
    let dt = DateTimeValue {
        year: -1,
        month: 1,
        day: 1,
        hour: 0,
        minute: 0,
        second: 0,
    };
    let text = format_date_time(&dt);
    assert_eq!(text, "-001-01-01T00:00:00");
    assert!(parse_iso8601_datetime(&text, "sheet.xml", false).is_err());
}
