use std::sync::Arc;
use xlsxparser::container::data::PartData;
use xlsxparser::date::SerialParts;
use xlsxparser::model::cell::{Cell, CellRef, CellValue, DateTimeValue};
use xlsxparser::model::range::ColWidthRange;
use xlsxparser::model::region::MergedRegion;
use xlsxparser::model::sheet::{Sheet, SheetVisibility};
use xlsxparser::model::style::{ResolvedStyle, StyleSheet};
use xlsxparser::number::Number;
use xlsxparser::parse::shared_strings::{parse_shared_strings, SharedStringTable};
use xlsxparser::parse::worksheet::{PendingSharedString, PendingStyle};
use xlsxparser::resolve::resolve_sheet;
use xlsxparser::resolve::shared_strings::resolve as resolve_strings;
use xlsxparser::resolve::style::{resolve as resolve_styles, serial_value};
use xlsxparser::Error;

fn whole(xml: &[u8]) -> PartData {
    PartData::whole(xml.to_vec())
}

fn num(s: &str) -> Number {
    Number::parse(s).unwrap()
}

/// Takes a date serial apart: whole days, and the rest in seconds, rounded.
fn split(n: &Number) -> Option<SerialParts> {
    let serial: f64 = n.as_str().parse().unwrap();
    if !serial.is_finite() || !(0.0..=2_958_465.0).contains(&serial) {
        return None;
    }
    Some(SerialParts {
        day: serial.trunc() as i64,
        seconds: (serial.fract() * 86_400.0).round() as i64,
    })
}

fn serial_to_date_time(serial: &str, date1904: bool) -> Option<DateTimeValue> {
    match serial_value(&num(serial), date1904, &split) {
        Some(CellValue::DateTime(t)) => Some(t),
        Some(other) => panic!("expected a date, got {other:?}"),
        None => None,
    }
}

fn sheet_with_pending_cell(cell_ref: CellRef) -> Sheet {
    let mut sheet = Sheet::new("Sheet1".into(), SheetVisibility::Visible);
    sheet.insert_cell(
        cell_ref,
        Cell {
            value: None,
            style: None,
        },
    );
    sheet
}

fn table(strings: &[&str]) -> SharedStringTable {
    let mut xml = String::from("<sst>");
    for s in strings {
        xml.push_str(&format!("<si><t>{s}</t></si>"));
    }
    xml.push_str("</sst>");
    parse_shared_strings(&whole(xml.as_bytes()), "xl/sharedStrings.xml").unwrap()
}

#[test]
fn resolves_valid_index_to_text() {
    let cell_ref = CellRef { row: 1, col: 1 };
    let mut sheet = sheet_with_pending_cell(cell_ref);
    let table = table(&["hello", "world"]);

    resolve_strings(
        &mut sheet,
        &vec![PendingSharedString { cell_ref, index: 1 }],
        &table,
    )
    .unwrap();

    assert_eq!(
        sheet.get(cell_ref).unwrap().value,
        Some(CellValue::Text(Arc::new("world".to_string())))
    );
}

#[test]
fn out_of_range_index_is_an_error() {
    let cell_ref = CellRef { row: 1, col: 1 };
    let mut sheet = sheet_with_pending_cell(cell_ref);
    let table = table(&["only"]);

    let err = resolve_strings(
        &mut sheet,
        &vec![PendingSharedString { cell_ref, index: 1 }],
        &table,
    )
    .unwrap_err();
    assert!(matches!(
        err,
        Error::SharedStringIndexOutOfBounds { index: 1, len: 1 }
    ));
}

#[test]
fn duplicate_string_references_share_the_same_arc_allocation() {
    let ref_a = CellRef { row: 1, col: 1 };
    let ref_b = CellRef { row: 1, col: 2 };
    let mut sheet = Sheet::new("Sheet1".into(), SheetVisibility::Visible);
    sheet.insert_cell(
        ref_a,
        Cell {
            value: None,
            style: None,
        },
    );
    sheet.insert_cell(
        ref_b,
        Cell {
            value: None,
            style: None,
        },
    );
    let table = table(&["shared"]);

    resolve_strings(
        &mut sheet,
        &vec![
            PendingSharedString {
                cell_ref: ref_a,
                index: 0,
            },
            PendingSharedString {
                cell_ref: ref_b,
                index: 0,
            },
        ],
        &table,
    )
    .unwrap();

    let (Some(CellValue::Text(a)), Some(CellValue::Text(b))) = (
        &sheet.get(ref_a).unwrap().value,
        &sheet.get(ref_b).unwrap().value,
    ) else {
        unreachable!()
    };
    assert!(Arc::ptr_eq(a, b));
}

#[test]
fn shared_strings_empty_pending_list_is_a_no_op() {
    let mut sheet = Sheet::new("Sheet1".into(), SheetVisibility::Visible);
    let table = table(&[]);
    resolve_strings(&mut sheet, &vec![], &table).unwrap();
}

fn sheet_with_cell(cell_ref: CellRef, value: Option<CellValue>) -> Sheet {
    let mut sheet = Sheet::new("Sheet1".into(), SheetVisibility::Visible);
    sheet.insert_cell(cell_ref, Cell { value, style: None });
    sheet
}

#[test]
fn applies_resolved_style_to_cell() {
    let cell_ref = CellRef { row: 1, col: 1 };
    let mut sheet = sheet_with_cell(cell_ref, Some(CellValue::Number(num("1.0"))));
    let mut stylesheet = StyleSheet::new();
    stylesheet.push(Arc::new(ResolvedStyle {
            is_date_time: false,
            ..Default::default()
        }),
    );

    resolve_styles(
        &mut sheet,
        &vec![PendingStyle {
            cell_ref,
            style_id: 0,
        }],
        &stylesheet,
        false,
        &split,
    )
    .unwrap();

    assert!(sheet.get(cell_ref).unwrap().style.is_some());
    assert!(
        !sheet
            .get(cell_ref)
            .unwrap()
            .style
            .as_ref()
            .unwrap()
            .is_date_time
    );
}

#[test]
fn nonexistent_style_id_is_an_error() {
    let cell_ref = CellRef { row: 1, col: 1 };
    let mut sheet = sheet_with_cell(cell_ref, Some(CellValue::Number(num("1.0"))));
    let stylesheet = StyleSheet::new();

    let err = resolve_styles(
        &mut sheet,
        &vec![PendingStyle {
            cell_ref,
            style_id: 99,
        }],
        &stylesheet,
        false,
        &split,
    )
    .unwrap_err();
    assert!(matches!(err, Error::InvalidStyleId(99)));
}

#[test]
fn date_time_style_converts_convertible_number() {
    let cell_ref = CellRef { row: 1, col: 1 };
    let mut sheet = sheet_with_cell(cell_ref, Some(CellValue::Number(num("45000.0"))));
    let mut stylesheet = StyleSheet::new();
    stylesheet.push(Arc::new(ResolvedStyle {
            is_date_time: true,
            ..Default::default()
        }),
    );

    resolve_styles(
        &mut sheet,
        &vec![PendingStyle {
            cell_ref,
            style_id: 0,
        }],
        &stylesheet,
        false,
        &split,
    )
    .unwrap();

    assert_eq!(
        sheet.get(cell_ref).unwrap().value,
        Some(CellValue::DateTime(DateTimeValue {
            year: 2023,
            month: 3,
            day: 15,
            hour: 0,
            minute: 0,
            second: 0,
        }))
    );
}

#[test]
fn date_time_style_leaves_unconvertible_number_unchanged() {
    let cell_ref = CellRef { row: 1, col: 1 };
    let mut sheet = sheet_with_cell(cell_ref, Some(CellValue::Number(num("-5.0"))));
    let mut stylesheet = StyleSheet::new();
    stylesheet.push(Arc::new(ResolvedStyle {
            is_date_time: true,
            ..Default::default()
        }),
    );

    resolve_styles(
        &mut sheet,
        &vec![PendingStyle {
            cell_ref,
            style_id: 0,
        }],
        &stylesheet,
        false,
        &split,
    )
    .unwrap();

    assert_eq!(
        sheet.get(cell_ref).unwrap().value,
        Some(CellValue::Number(num("-5.0")))
    );
}

#[test]
fn date_time_style_on_non_numeric_value_is_left_unconverted() {
    let cell_ref = CellRef { row: 1, col: 1 };
    let mut sheet = sheet_with_cell(cell_ref, Some(CellValue::Boolean(true)));
    let mut stylesheet = StyleSheet::new();
    stylesheet.push(Arc::new(ResolvedStyle {
            is_date_time: true,
            ..Default::default()
        }),
    );

    resolve_styles(
        &mut sheet,
        &vec![PendingStyle {
            cell_ref,
            style_id: 0,
        }],
        &stylesheet,
        false,
        &split,
    )
    .unwrap();

    assert_eq!(
        sheet.get(cell_ref).unwrap().value,
        Some(CellValue::Boolean(true))
    );
}

#[test]
fn non_date_time_style_only_sets_style() {
    let cell_ref = CellRef { row: 1, col: 1 };
    let mut sheet = sheet_with_cell(cell_ref, Some(CellValue::Number(num("3.0"))));
    let mut stylesheet = StyleSheet::new();
    stylesheet.push(Arc::new(ResolvedStyle {
            is_date_time: false,
            ..Default::default()
        }),
    );

    resolve_styles(
        &mut sheet,
        &vec![PendingStyle {
            cell_ref,
            style_id: 0,
        }],
        &stylesheet,
        false,
        &split,
    )
    .unwrap();

    assert_eq!(
        sheet.get(cell_ref).unwrap().value,
        Some(CellValue::Number(num("3.0")))
    );
}

#[test]
fn shared_style_arcs_are_not_duplicated() {
    let ref_a = CellRef { row: 1, col: 1 };
    let ref_b = CellRef { row: 1, col: 2 };
    let mut sheet = Sheet::new("Sheet1".into(), SheetVisibility::Visible);
    sheet.insert_cell(
        ref_a,
        Cell {
            value: None,
            style: None,
        },
    );
    sheet.insert_cell(
        ref_b,
        Cell {
            value: None,
            style: None,
        },
    );
    let mut stylesheet = StyleSheet::new();
    stylesheet.push(Arc::new(ResolvedStyle {
            is_date_time: false,
            ..Default::default()
        }),
    );

    resolve_styles(
        &mut sheet,
        &vec![
            PendingStyle {
                cell_ref: ref_a,
                style_id: 0,
            },
            PendingStyle {
                cell_ref: ref_b,
                style_id: 0,
            },
        ],
        &stylesheet,
        false,
        &split,
    )
    .unwrap();

    assert!(Arc::ptr_eq(
        sheet.get(ref_a).unwrap().style.as_ref().unwrap(),
        sheet.get(ref_b).unwrap().style.as_ref().unwrap()
    ));
}

#[test]
fn style_empty_pending_list_is_a_no_op() {
    let mut sheet = Sheet::new("Sheet1".into(), SheetVisibility::Visible);
    let stylesheet = StyleSheet::new();
    resolve_styles(&mut sheet, &vec![], &stylesheet, false, &split).unwrap();
}

#[test]
fn serial_to_date_time_rejects_non_finite_and_negative() {
    assert_eq!(serial_to_date_time("NaN", false), None);
    assert_eq!(serial_to_date_time("inf", false), None);
    assert_eq!(serial_to_date_time("-1.0", false), None);
    assert_eq!(serial_to_date_time("3000000.0", false), None);
}

#[test]
fn serial_1_is_1900_01_01_not_the_naive_epoch_minus_one() {
    assert_eq!(
        serial_to_date_time("1.0", false),
        Some(DateTimeValue {
            year: 1900,
            month: 1,
            day: 1,
            hour: 0,
            minute: 0,
            second: 0,
        })
    );
}

#[test]
fn serial_59_and_61_bracket_the_1900_leap_year_bug_correctly() {
    assert_eq!(
        serial_to_date_time("59.0", false).map(|d| (d.year, d.month, d.day)),
        Some((1900, 2, 28))
    );
    assert_eq!(
        serial_to_date_time("61.0", false).map(|d| (d.year, d.month, d.day)),
        Some((1900, 3, 1))
    );
}

#[test]
fn serial_60_is_the_fictitious_1900_02_29_leap_year_bug() {
    assert_eq!(
        serial_to_date_time("60.0", false).map(|d| (d.year, d.month, d.day)),
        Some((1900, 2, 29))
    );
}

#[test]
fn date1904_system_has_no_leap_year_bug() {
    assert_eq!(
        serial_to_date_time("0.0", true).map(|d| (d.year, d.month, d.day)),
        Some((1904, 1, 1))
    );
    assert_eq!(
        serial_to_date_time("1.0", true).map(|d| (d.year, d.month, d.day)),
        Some((1904, 1, 2))
    );
    assert_eq!(
        serial_to_date_time("60.0", true).map(|d| (d.year, d.month, d.day)),
        Some((1904, 3, 1))
    );
}

#[test]
fn fractional_serial_decomposes_into_time_of_day() {
    assert_eq!(
        serial_to_date_time("45000.5", false),
        Some(DateTimeValue {
            year: 2023,
            month: 3,
            day: 15,
            hour: 12,
            minute: 0,
            second: 0,
        })
    );
}

#[test]
fn rounding_a_fractional_part_up_to_a_full_day_carries_into_the_next_day() {
    let result = serial_to_date_time("2.9999999999", false).unwrap();
    assert_eq!((result.year, result.month, result.day), (1900, 1, 3));
    assert_eq!((result.hour, result.minute, result.second), (0, 0, 0));
}

#[test]
fn resolves_shared_string_style_and_merge_together() {
    let mut sheet = Sheet::new("Sheet1".into(), SheetVisibility::Visible);
    let sst_ref = CellRef { row: 1, col: 1 };
    let styled_ref = CellRef { row: 2, col: 1 };
    sheet.insert_cell(
        sst_ref,
        Cell {
            value: None,
            style: None,
        },
    );
    sheet.insert_cell(
        styled_ref,
        Cell {
            value: Some(CellValue::Number(num("1.0"))),
            style: None,
        },
    );

    let table = parse_shared_strings(
        &whole(&b"<sst><si><t>hello</t></si></sst>"[..]),
        "xl/sharedStrings.xml",
    )
    .unwrap();
    let mut stylesheet = StyleSheet::new();
    stylesheet.push(Arc::new(ResolvedStyle {
            is_date_time: false,
            ..Default::default()
        }),
    );
    let merge_regions = vec![MergedRegion {
        start: CellRef { row: 3, col: 1 },
        end: CellRef { row: 3, col: 2 },
    }];

    resolve_sheet(
        &mut sheet,
        &vec![PendingSharedString {
            cell_ref: sst_ref,
            index: 0,
        }],
        &table,
        &vec![PendingStyle {
            cell_ref: styled_ref,
            style_id: 0,
        }],
        &stylesheet,
        false,
        vec![ColWidthRange {
            min: 1,
            max: 5,
            width: num("12.0"),
        }],
        None,
        merge_regions,
        &split,
    )
    .unwrap();

    assert_eq!(
        sheet.get(sst_ref).unwrap().value,
        Some(CellValue::Text(Arc::new("hello".to_string())))
    );
    assert!(sheet.get(styled_ref).unwrap().style.is_some());
    assert_eq!(
        sheet.get(CellRef { row: 3, col: 2 }),
        sheet.get(CellRef { row: 3, col: 1 })
    );
    assert_eq!(sheet.column_width(1), Some(&num("12.0")));
}

#[test]
fn shared_string_failure_skips_subsequent_steps() {
    let mut sheet = Sheet::new("Sheet1".into(), SheetVisibility::Visible);
    let cell_ref = CellRef { row: 1, col: 1 };
    sheet.insert_cell(
        cell_ref,
        Cell {
            value: None,
            style: None,
        },
    );
    let empty_table =
        parse_shared_strings(&whole(&b"<sst></sst>"[..]), "xl/sharedStrings.xml")
            .unwrap();
    let stylesheet = StyleSheet::new();
    let bad_merge_regions = vec![MergedRegion {
        start: CellRef { row: 3, col: 3 },
        end: CellRef { row: 1, col: 1 },
    }];

    let err = resolve_sheet(
        &mut sheet,
        &vec![PendingSharedString { cell_ref, index: 0 }],
        &empty_table,
        &vec![],
        &stylesheet,
        false,
        vec![],
        None,
        bad_merge_regions,
        &split,
    )
    .unwrap_err();

    assert!(matches!(err, Error::SharedStringIndexOutOfBounds { .. }));
    assert!(sheet.merged_region_at(CellRef { row: 3, col: 3 }).is_none());
}

#[test]
fn empty_pending_and_merge_lists_are_a_no_op() {
    let mut sheet = Sheet::new("Sheet1".into(), SheetVisibility::Visible);
    let table = parse_shared_strings(&whole(&b"<sst></sst>"[..]), "xl/sharedStrings.xml")
        .unwrap();
    let stylesheet = StyleSheet::new();
    resolve_sheet(
        &mut sheet,
        &vec![],
        &table,
        &vec![],
        &stylesheet,
        false,
        vec![],
        None,
        vec![],
        &split,
    )
    .unwrap();
}

#[test]
fn the_last_day_that_a_serial_can_stand_for_is_in_the_year_9999() {
    assert_eq!(
        serial_to_date_time("2958465", false).map(|d| (d.year, d.month, d.day)),
        Some((9999, 12, 31))
    );
    assert_eq!(serial_to_date_time("2958465.5", false), None);
    assert_eq!(
        serial_to_date_time("0", false).map(|d| (d.year, d.month, d.day)),
        Some((1899, 12, 30))
    );
}

#[test]
fn the_two_date_systems_are_1462_days_apart() {
    for serial in [61, 1_000, 45_000, 100_000] {
        assert_eq!(
            serial_to_date_time(&(serial + 1462).to_string(), false),
            serial_to_date_time(&serial.to_string(), true)
        );
    }
}

#[test]
fn only_the_beginning_of_the_last_day_is_a_date() {
    let n = Number::from_integer(1);
    let value = |day, seconds| serial_value(&n, false, &|_: &Number| Some(SerialParts { day, seconds }));
    assert!(value(2_958_465, 0).is_some());
    assert!(value(2_958_464, 86_400).is_some());
    for (day, seconds) in [(2_958_465, 1), (2_958_465, 43_200), (2_958_465, 86_400), (2_958_466, 0), (-1, 0), (0, -1), (0, 86_401)] {
        assert_eq!(value(day, seconds), None, "{day} {seconds}");
    }
}
