use xlsxparser::model::range::RowHeightRange;
use xlsxparser::model::sheet::{Sheet, SheetVisibility};
use xlsxparser::number::Number;
use xlsxparser::resolve::row_height::{resolve, MAX_ROW_HEIGHT_RANGES};
use xlsxparser::Error;

fn num(s: &str) -> Number {
    Number::parse(s).unwrap()
}

fn range(min: u32, max: u32, height_pt: &str) -> RowHeightRange {
    RowHeightRange {
        min,
        max,
        height_pt: num(height_pt),
    }
}

fn new_sheet() -> Sheet {
    Sheet::new("Sheet1".into(), SheetVisibility::Visible)
}

#[test]
fn row_height_registers_non_overlapping_ranges_in_sorted_order() {
    let mut sheet = new_sheet();
    resolve(
        &mut sheet,
        vec![range(10, 20, "20.0"), range(1, 5, "10.0")],
        None,
    )
    .unwrap();

    assert_eq!(sheet.row_height(1), Some(&num("10.0")));
    assert_eq!(sheet.row_height(10), Some(&num("20.0")));
    assert_eq!(sheet.row_height(6), None);
}

#[test]
fn row_height_overlapping_ranges_are_an_error() {
    let mut sheet = new_sheet();
    let err = resolve(
        &mut sheet,
        vec![range(1, 10, "10.0"), range(5, 15, "20.0")],
        None,
    )
    .unwrap_err();
    assert!(matches!(err, Error::InvalidRowHeightRange { .. }));
    assert_eq!(sheet.row_height(7), None);
}

#[test]
fn row_height_touching_ranges_are_not_overlapping() {
    let mut sheet = new_sheet();
    resolve(&mut sheet, vec![range(1, 2, "10.0"), range(3, 4, "20.0")], None).unwrap();
    assert_eq!(sheet.row_height(2), Some(&num("10.0")));
    assert_eq!(sheet.row_height(3), Some(&num("20.0")));
}

#[test]
fn row_height_identical_duplicate_ranges_are_an_error() {
    let mut sheet = new_sheet();
    let err =
        resolve(&mut sheet, vec![range(1, 5, "10.0"), range(1, 5, "10.0")], None).unwrap_err();
    assert!(matches!(err, Error::InvalidRowHeightRange { .. }));
}

#[test]
fn row_height_range_count_at_the_limit_is_accepted() {
    let mut sheet = new_sheet();
    let ranges: Vec<RowHeightRange> = (1..=MAX_ROW_HEIGHT_RANGES as u32)
        .map(|i| range(i, i, "15.0"))
        .collect();
    resolve(&mut sheet, ranges, None).unwrap();
    assert_eq!(sheet.row_height(1), Some(&num("15.0")));
    assert_eq!(sheet.row_height(MAX_ROW_HEIGHT_RANGES as u32), Some(&num("15.0")));
}

#[test]
fn range_count_over_the_limit_is_too_many_row_height_ranges() {
    let mut sheet = new_sheet();
    let ranges: Vec<RowHeightRange> = (1..=(MAX_ROW_HEIGHT_RANGES as u32 + 1))
        .map(|i| range(i, i, "15.0"))
        .collect();
    let err = resolve(&mut sheet, ranges, None).unwrap_err();
    assert!(matches!(
        err,
        Error::TooManyRowHeightRanges {
            count,
            limit
        } if count == MAX_ROW_HEIGHT_RANGES + 1 && limit == MAX_ROW_HEIGHT_RANGES
    ));
}

#[test]
fn empty_range_list_still_registers_default_row_height() {
    let mut sheet = new_sheet();
    resolve(&mut sheet, vec![], Some(num("15.0"))).unwrap();
    assert_eq!(sheet.row_height(1), Some(&num("15.0")));
}

#[test]
fn no_ranges_and_no_default_is_none() {
    let mut sheet = new_sheet();
    resolve(&mut sheet, vec![], None).unwrap();
    assert_eq!(sheet.row_height(1), None);
}
