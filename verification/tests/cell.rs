use std::sync::Arc;
use xlsxparser::model::cell::{Cell, CellRef, CellValue, DateTimeValue};
use xlsxparser::model::color::{Rgb, ThemePalette};
use xlsxparser::model::sheet::{Sheet, SheetVisibility};
use xlsxparser::model::style::ResolvedStyle;
use xlsxparser::model::workbook::Workbook;
use xlsxparser::number::Number;
use xlsxparser::Error;

fn num(s: &str) -> Number {
    Number::parse(s).unwrap()
}

#[test]
fn from_a1_to_a1_round_trip() {
    let cases = [
        ("A1", CellRef { row: 1, col: 1 }),
        ("Z1", CellRef { row: 1, col: 26 }),
        ("AA1", CellRef { row: 1, col: 27 }),
        (
            "XFD1048576",
            CellRef {
                row: 1_048_576,
                col: 16_384,
            },
        ),
    ];

    for (a1, expected) in cases {
        let parsed = CellRef::from_a1(a1).unwrap();
        assert_eq!(parsed, expected, "parsing {a1}");
        assert_eq!(parsed.to_a1(), a1, "round-trip of {a1}");
    }
}

#[test]
fn from_a1_rejects_invalid_strings() {
    let invalid = [
        "a1",              // lowercase
        "A#1",             // mixed symbols
        "A1B2",            // symbols/order mixed in the row part
        "A",               // column-only
        "123",             // row-only
        "",                // empty
        "A0",              // row 0 is out of range
        "A10000000000000", // row overflows u32
        "A1048577",        // row exceeds Excel's real maximum (1,048,576) by 1
        "XFE1",            // column exceeds Excel's real maximum (16,384 = XFD) by 1
    ];

    for s in invalid {
        assert!(CellRef::from_a1(s).is_err(), "expected {s:?} to be invalid");
    }
}

#[test]
fn from_a1_rejects_row_or_col_far_beyond_excels_real_maximum() {
    let err = CellRef::from_a1("ZZZZZZ4294967294").unwrap_err();
    assert!(matches!(err, Error::InvalidCellRef(_)));
}

#[test]
fn cell_value_equality() {
    assert_eq!(CellValue::Number(num("1.5")), CellValue::Number(num("1.5")));
    assert_ne!(CellValue::Number(num("1.5")), CellValue::Number(num("2.5")));
    let dt = DateTimeValue {
        year: 2024,
        month: 1,
        day: 1,
        hour: 0,
        minute: 0,
        second: 0,
    };
    assert_eq!(CellValue::DateTime(dt), CellValue::DateTime(dt));
    assert_ne!(
        CellValue::DateTime(dt),
        CellValue::DateTime(DateTimeValue { day: 2, ..dt })
    );
    assert_eq!(
        CellValue::Text(Arc::new("hello".to_string())),
        CellValue::Text(Arc::new("hello".to_string()))
    );
    assert_ne!(
        CellValue::Text(Arc::new("hello".to_string())),
        CellValue::Text(Arc::new("world".to_string()))
    );
    assert_eq!(CellValue::Boolean(true), CellValue::Boolean(true));
    assert_ne!(CellValue::Boolean(true), CellValue::Boolean(false));
    assert_eq!(
        CellValue::Error("#DIV/0!".into()),
        CellValue::Error("#DIV/0!".into())
    );
    assert_ne!(CellValue::Number(num("1.0")), CellValue::Boolean(true));
}

#[test]
fn cell_with_formatting_only_has_no_value() {
    let style = Arc::new(ResolvedStyle {
        is_date_time: false,
        ..Default::default()
    });
    let cell = Cell {
        value: None,
        style: Some(style.clone()),
    };
    assert_eq!(cell.value, None);
    assert_eq!(cell.style, Some(style));
}

#[test]
fn arc_sharing_avoids_duplication() {
    let style = Arc::new(ResolvedStyle {
        is_date_time: true,
        ..Default::default()
    });
    let a = Cell {
        value: None,
        style: Some(style.clone()),
    };
    let b = Cell {
        value: None,
        style: Some(style.clone()),
    };
    assert!(Arc::ptr_eq(
        a.style.as_ref().unwrap(),
        b.style.as_ref().unwrap()
    ));

    let text: Arc<String> = Arc::new("shared".to_string());
    let a = Cell {
        value: Some(CellValue::Text(text.clone())),
        style: None,
    };
    let b = Cell {
        value: Some(CellValue::Text(text.clone())),
        style: None,
    };
    let (Some(CellValue::Text(a_text)), Some(CellValue::Text(b_text))) = (&a.value, &b.value)
    else {
        unreachable!()
    };
    assert!(Arc::ptr_eq(a_text, b_text));
}

fn sheet(name: &str) -> Sheet {
    Sheet::new(name.to_string(), SheetVisibility::Visible)
}

#[test]
fn sheet_lookup_by_name() {
    let workbook = Workbook::new(vec![sheet("Sheet1"), sheet("Sheet2")], None);
    assert_eq!(
        workbook.sheet("Sheet1").map(|s| s.name.as_str()),
        Some("Sheet1")
    );
    assert_eq!(
        workbook.sheet("Sheet2").map(|s| s.name.as_str()),
        Some("Sheet2")
    );
    assert!(workbook.sheet("NoSuchSheet").is_none());
}

#[test]
fn sheets_preserve_definition_order() {
    let workbook = Workbook::new(vec![sheet("C"), sheet("A"), sheet("B")], None);
    let names: Vec<&str> = workbook.sheets().iter().map(|s| s.name.as_str()).collect();
    assert_eq!(names, vec!["C", "A", "B"]);
}

#[test]
fn empty_workbook() {
    let workbook = Workbook::new(vec![], None);
    assert!(workbook.sheets().is_empty());
    assert!(workbook.sheet("anything").is_none());
}

#[test]
fn theme_is_none_when_workbook_has_no_theme_part() {
    let workbook = Workbook::new(vec![sheet("Sheet1")], None);
    assert!(workbook.theme().is_none());
}

#[test]
fn theme_returns_the_palette_when_present() {
    let palette = ThemePalette([Rgb { r: 0, g: 0, b: 0 }; 12]);
    let workbook = Workbook::new(vec![sheet("Sheet1")], Some(palette));
    assert_eq!(workbook.theme(), Some(&palette));
}

#[test]
fn a_leading_zero_is_lost_on_the_way_through_coordinates() {
    let parsed = CellRef::from_a1("A01").unwrap();
    assert_eq!(parsed, CellRef { row: 1, col: 1 });
    assert_eq!(parsed.to_a1(), "A1");
    assert_eq!(
        CellRef::from_a1("A-1"),
        Err(Error::InvalidCellRef("A-1".to_string()))
    );
}
