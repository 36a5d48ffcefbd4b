use xlsxparser::model::cell::{Cell, CellRef, CellValue};
use xlsxparser::model::region::MergedRegion;
use xlsxparser::model::sheet::{Hyperlink, HyperlinkRange, Sheet, SheetVisibility};
use xlsxparser::number::Number;
use xlsxparser::resolve::hyperlink::{ranges_overlap, resolve, MAX_HYPERLINKS_PER_SHEET};
use xlsxparser::Error;

fn num(s: &str) -> Number {
    Number::parse(s).unwrap()
}

fn r(row: u32, col: u32) -> CellRef {
    CellRef { row, col }
}

fn range(start: (u32, u32), end: (u32, u32), target: &str) -> HyperlinkRange {
    HyperlinkRange {
        start: r(start.0, start.1),
        end: r(end.0, end.1),
        hyperlink: Hyperlink {
            target: Some(target.to_string()),
            location: None,
            tooltip: None,
        },
    }
}

#[test]
fn registers_non_overlapping_ranges_and_resolves_every_covered_cell() {
    let mut sheet = Sheet::new("Sheet1".into(), SheetVisibility::Visible);
    sheet.insert_cell(
        r(2, 2),
        Cell {
            value: Some(CellValue::Number(num("1.0"))),
            style: None,
        },
    );
    sheet.insert_cell(
        r(2, 3),
        Cell {
            value: Some(CellValue::Number(num("2.0"))),
            style: None,
        },
    );
    let ranges = vec![
        range((1, 1), (1, 1), "https://a.example/"),
        range((2, 1), (2, 3), "https://b.example/"),
    ];
    resolve(&mut sheet, ranges).unwrap();

    assert_eq!(
        sheet.hyperlink_at(r(1, 1)).unwrap().target.as_deref(),
        Some("https://a.example/")
    );
    for col in 1..=3 {
        assert_eq!(
            sheet.hyperlink_at(r(2, col)).unwrap().target.as_deref(),
            Some("https://b.example/"),
            "col {col} must independently carry the range's hyperlink"
        );
    }
}

#[test]
fn fully_blank_cell_in_range_other_than_origin_is_not_resolved() {
    let mut sheet = Sheet::new("Sheet1".into(), SheetVisibility::Visible);
    resolve(&mut sheet, vec![range((1, 1), (1, 3), "a")]).unwrap();

    assert!(sheet.hyperlink_at(r(1, 1)).is_some());
    assert!(sheet.hyperlink_at(r(1, 2)).is_none());
    assert!(sheet.get(r(1, 2)).is_none());
}

#[test]
fn hyperlink_reversed_start_end_is_an_error() {
    let mut sheet = Sheet::new("Sheet1".into(), SheetVisibility::Visible);
    let err = resolve(&mut sheet, vec![range((3, 3), (1, 1), "x")]).unwrap_err();
    assert!(matches!(err, Error::InvalidHyperlinkRange { .. }));
}

#[test]
fn hyperlink_overlapping_ranges_are_an_error() {
    let mut sheet = Sheet::new("Sheet1".into(), SheetVisibility::Visible);
    let ranges = vec![range((1, 1), (3, 3), "a"), range((2, 2), (4, 4), "b")];
    let err = resolve(&mut sheet, ranges).unwrap_err();
    assert!(matches!(err, Error::InvalidHyperlinkRange { .. }));
}

#[test]
fn adjacent_non_overlapping_ranges_are_not_flagged() {
    let mut sheet = Sheet::new("Sheet1".into(), SheetVisibility::Visible);
    let ranges = vec![range((1, 1), (2, 2), "a"), range((1, 3), (2, 4), "b")];
    resolve(&mut sheet, ranges).unwrap();
}

#[test]
fn overlapping_a_merged_region_is_accepted() {
    let mut sheet = Sheet::new("Sheet1".into(), SheetVisibility::Visible);
    sheet.insert_merge(MergedRegion {
        start: r(1, 1),
        end: r(3, 3),
    });
    resolve(&mut sheet, vec![range((1, 1), (2, 2), "a")]).unwrap();
    assert_eq!(
        sheet.hyperlink_at(r(1, 1)).unwrap().target.as_deref(),
        Some("a")
    );
}

#[test]
fn huge_range_validates_without_cell_count_cost() {
    let mut sheet = Sheet::new("Sheet1".into(), SheetVisibility::Visible);
    resolve(&mut sheet, vec![range((1, 1), (1_048_576, 16_384), "a")]).unwrap();
}

#[test]
fn hyperlink_validation_failure_registers_nothing() {
    let mut sheet = Sheet::new("Sheet1".into(), SheetVisibility::Visible);
    let ranges = vec![range((1, 1), (2, 2), "a"), range((1, 1), (3, 3), "b")];
    let err = resolve(&mut sheet, ranges).unwrap_err();
    assert!(matches!(err, Error::InvalidHyperlinkRange { .. }));
    assert!(sheet.hyperlink_at(r(1, 1)).is_none());
    assert!(sheet.get(r(1, 1)).is_none());
}

#[test]
fn empty_range_list_is_a_no_op() {
    let mut sheet = Sheet::new("Sheet1".into(), SheetVisibility::Visible);
    resolve(&mut sheet, vec![]).unwrap();
}

#[test]
fn hyperlink_range_count_at_the_limit_is_accepted() {
    let mut sheet = Sheet::new("Sheet1".into(), SheetVisibility::Visible);
    let ranges: Vec<HyperlinkRange> = (1..=MAX_HYPERLINKS_PER_SHEET as u32)
        .map(|row| range((row, 1), (row, 1), "a"))
        .collect();
    resolve(&mut sheet, ranges).unwrap();
}

#[test]
fn range_count_over_the_limit_is_too_many_hyperlinks() {
    let mut sheet = Sheet::new("Sheet1".into(), SheetVisibility::Visible);
    let ranges: Vec<HyperlinkRange> = (1..=(MAX_HYPERLINKS_PER_SHEET as u32 + 1))
        .map(|row| range((row, 1), (row, 1), "a"))
        .collect();
    let err = resolve(&mut sheet, ranges).unwrap_err();
    assert!(matches!(
        err,
        Error::TooManyHyperlinks { count, limit }
        if count == MAX_HYPERLINKS_PER_SHEET + 1 && limit == MAX_HYPERLINKS_PER_SHEET
    ));
}

#[test]
fn ranges_overlap_boundary_values() {
    assert!(ranges_overlap(
        &range((1, 1), (3, 3), "a"),
        &range((3, 3), (5, 5), "b")
    ));
    assert!(!ranges_overlap(
        &range((1, 1), (2, 2), "a"),
        &range((1, 3), (2, 4), "b")
    ));
}

#[test]
fn an_overlap_names_the_first_range_that_is_met() {
    let mut sheet = Sheet::new("Sheet1".into(), SheetVisibility::Visible);
    let ranges = vec![
        range((1, 1), (1, 1), "a"),
        range((3, 2), (4, 3), "b"),
        range((5, 1), (9, 9), "c"),
        range((4, 3), (5, 28), "d"),
    ];
    assert_eq!(
        resolve(&mut sheet, ranges),
        Err(Error::InvalidHyperlinkRange {
            start: "C4".to_string(),
            end: "AB5".to_string(),
            reason: "overlaps with another hyperlink range (B3:C4)".to_string()
        })
    );
}
