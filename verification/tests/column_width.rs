use xlsxparser::model::range::ColWidthRange;
use xlsxparser::model::sheet::{Sheet, SheetVisibility};
use xlsxparser::number::Number;
use xlsxparser::resolve::column_width::{resolve, MAX_COLUMN_WIDTH_RANGES};
use xlsxparser::Error;

fn num(s: &str) -> Number {
    Number::parse(s).unwrap()
}

fn range(min: u32, max: u32, width: &str) -> ColWidthRange {
    ColWidthRange { min, max, width: num(width) }
}

fn new_sheet() -> Sheet {
    Sheet::new("Sheet1".into(), SheetVisibility::Visible)
}

#[test]
fn column_width_registers_non_overlapping_ranges_in_sorted_order() {
    let mut sheet = new_sheet();
    resolve(
        &mut sheet,
        vec![range(10, 20, "20.0"), range(1, 5, "10.0")],
        None,
    )
    .unwrap();

    assert_eq!(sheet.column_width(1), Some(&num("10.0")));
    assert_eq!(sheet.column_width(10), Some(&num("20.0")));
    assert_eq!(
        sheet.col_width_ranges(),
        &vec![range(1, 5, "10.0"), range(10, 20, "20.0")]
    );
}

#[test]
fn reversed_min_max_is_an_error() {
    let mut sheet = new_sheet();
    let err = resolve(&mut sheet, vec![range(10, 5, "99.0")], None).unwrap_err();
    assert!(matches!(err, Error::InvalidColumnWidthRange { .. }));
    assert_eq!(sheet.col_width_ranges().len(), 0);
}

#[test]
fn column_width_overlapping_ranges_are_an_error() {
    let mut sheet = new_sheet();
    let err = resolve(
        &mut sheet,
        vec![range(1, 10, "10.0"), range(5, 15, "20.0")],
        None,
    )
    .unwrap_err();
    assert!(matches!(err, Error::InvalidColumnWidthRange { .. }));
    assert_eq!(sheet.col_width_ranges().len(), 0);
}

#[test]
fn column_width_touching_ranges_are_not_overlapping() {
    let mut sheet = new_sheet();
    resolve(&mut sheet, vec![range(1, 2, "10.0"), range(3, 4, "20.0")], None).unwrap();
    assert_eq!(sheet.column_width(2), Some(&num("10.0")));
    assert_eq!(sheet.column_width(3), Some(&num("20.0")));
}

#[test]
fn column_width_identical_duplicate_ranges_are_an_error() {
    let mut sheet = new_sheet();
    let err =
        resolve(&mut sheet, vec![range(1, 5, "10.0"), range(1, 5, "10.0")], None).unwrap_err();
    assert!(matches!(err, Error::InvalidColumnWidthRange { .. }));
}

#[test]
fn column_width_range_count_at_the_limit_is_accepted() {
    let mut sheet = new_sheet();
    let ranges: Vec<ColWidthRange> = (1..=MAX_COLUMN_WIDTH_RANGES as u32)
        .map(|i| range(i, i, "1.0"))
        .collect();
    resolve(&mut sheet, ranges, None).unwrap();
    assert_eq!(sheet.col_width_ranges().len(), MAX_COLUMN_WIDTH_RANGES);
}

#[test]
fn range_count_over_the_limit_is_too_many_column_width_ranges() {
    let mut sheet = new_sheet();
    let ranges: Vec<ColWidthRange> = (1..=(MAX_COLUMN_WIDTH_RANGES as u32 + 1))
        .map(|i| range(i, i, "1.0"))
        .collect();
    let err = resolve(&mut sheet, ranges, None).unwrap_err();
    assert!(matches!(
        err,
        Error::TooManyColumnWidthRanges {
            count,
            limit
        } if count == MAX_COLUMN_WIDTH_RANGES + 1 && limit == MAX_COLUMN_WIDTH_RANGES
    ));
}

#[test]
fn empty_range_list_still_registers_default_col_width() {
    let mut sheet = new_sheet();
    resolve(&mut sheet, vec![], Some(num("9.0"))).unwrap();
    assert_eq!(sheet.column_width(1), Some(&num("9.0")));
    assert_eq!(sheet.default_col_width(), Some(&num("9.0")));
}

#[test]
fn a_full_width_single_range_does_not_expand_into_per_column_entries() {
    let mut sheet = new_sheet();
    resolve(&mut sheet, vec![range(1, 16_384, "8.43")], None).unwrap();
    assert_eq!(sheet.col_width_ranges().len(), 1);
    assert_eq!(sheet.column_width(1), Some(&num("8.43")));
    assert_eq!(sheet.column_width(16_384), Some(&num("8.43")));
}

#[test]
fn the_first_reversed_range_is_named_before_any_overlap() {
    let mut sheet = new_sheet();
    let err = resolve(
        &mut sheet,
        vec![range(1, 10, "1"), range(5, 15, "1"), range(9, 8, "1"), range(7, 6, "1")],
        None,
    )
    .unwrap_err();
    assert_eq!(
        err,
        Error::InvalidColumnWidthRange {
            min: 9,
            max: 8,
            reason: "min must not be greater than max".to_string()
        }
    );
}

#[test]
fn the_overlap_that_is_named_is_the_first_after_sorting() {
    let mut sheet = new_sheet();
    let err = resolve(
        &mut sheet,
        vec![range(30, 40, "1"), range(35, 36, "1"), range(1, 10, "1"), range(10, 12, "1")],
        None,
    )
    .unwrap_err();
    assert_eq!(
        err,
        Error::InvalidColumnWidthRange {
            min: 10,
            max: 12,
            reason: "overlaps another column width range".to_string()
        }
    );
}
