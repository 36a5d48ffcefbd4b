use xlsxparser::model::cell::CellRef;
use xlsxparser::model::region::{regions_overlap, MergedRegion};
use xlsxparser::model::sheet::{Sheet, SheetVisibility};
use xlsxparser::resolve::merge::{resolve, MAX_MERGE_REGIONS};
use xlsxparser::Error;

fn region(start: (u32, u32), end: (u32, u32)) -> MergedRegion {
    MergedRegion {
        start: CellRef {
            row: start.0,
            col: start.1,
        },
        end: CellRef {
            row: end.0,
            col: end.1,
        },
    }
}

#[test]
fn registers_non_overlapping_regions() {
    let mut sheet = Sheet::new("Sheet1".into(), SheetVisibility::Visible);
    let regions = vec![region((1, 1), (2, 2)), region((3, 1), (4, 2))];
    resolve(&mut sheet, regions).unwrap();

    assert_eq!(
        sheet.get(CellRef { row: 2, col: 2 }),
        sheet.get(CellRef { row: 1, col: 1 })
    );
    assert_eq!(
        sheet.get(CellRef { row: 4, col: 2 }),
        sheet.get(CellRef { row: 3, col: 1 })
    );
}

#[test]
fn merge_reversed_start_end_is_an_error() {
    let mut sheet = Sheet::new("Sheet1".into(), SheetVisibility::Visible);
    let err = resolve(&mut sheet, vec![region((3, 3), (1, 1))]).unwrap_err();
    assert!(matches!(err, Error::InvalidMergedRange { .. }));
}

#[test]
fn overlapping_regions_are_an_error() {
    let mut sheet = Sheet::new("Sheet1".into(), SheetVisibility::Visible);
    let regions = vec![region((1, 1), (3, 3)), region((2, 2), (4, 4))];
    let err = resolve(&mut sheet, regions).unwrap_err();
    assert!(matches!(err, Error::InvalidMergedRange { .. }));
}

#[test]
fn adjacent_non_overlapping_regions_are_not_flagged() {
    let mut sheet = Sheet::new("Sheet1".into(), SheetVisibility::Visible);
    let regions = vec![region((1, 1), (2, 2)), region((1, 3), (2, 4))];
    resolve(&mut sheet, regions).unwrap();
}

#[test]
fn huge_region_validates_without_cell_count_cost() {
    let mut sheet = Sheet::new("Sheet1".into(), SheetVisibility::Visible);
    resolve(&mut sheet, vec![region((1, 1), (1_048_576, 16_384))]).unwrap();
}

#[test]
fn merge_validation_failure_registers_nothing() {
    let mut sheet = Sheet::new("Sheet1".into(), SheetVisibility::Visible);
    let regions = vec![region((1, 1), (2, 2)), region((1, 1), (3, 3))];
    let err = resolve(&mut sheet, regions).unwrap_err();
    assert!(matches!(err, Error::InvalidMergedRange { .. }));
    assert!(sheet.get(CellRef { row: 1, col: 1 }).is_none());
    assert!(sheet.merged_region_at(CellRef { row: 1, col: 1 }).is_none());
}

#[test]
fn empty_region_list_is_a_no_op() {
    let mut sheet = Sheet::new("Sheet1".into(), SheetVisibility::Visible);
    resolve(&mut sheet, vec![]).unwrap();
}

#[test]
fn one_by_one_region_is_handled() {
    let mut sheet = Sheet::new("Sheet1".into(), SheetVisibility::Visible);
    resolve(&mut sheet, vec![region((1, 1), (1, 1))]).unwrap();
    assert!(sheet.get(CellRef { row: 1, col: 1 }).is_some());
}

#[test]
fn regions_overlap_boundary_values() {
    assert!(regions_overlap(
        &region((1, 1), (3, 3)),
        &region((3, 3), (5, 5))
    )); // touching corner counts as overlap
    assert!(!regions_overlap(
        &region((1, 1), (2, 2)),
        &region((1, 3), (2, 4))
    ));
}

#[test]
fn region_count_over_the_limit_is_too_many_merged_ranges() {
    let mut sheet = Sheet::new("Sheet1".into(), SheetVisibility::Visible);
    let regions: Vec<MergedRegion> = (1..=(MAX_MERGE_REGIONS as u32 + 1))
        .map(|row| region((row, 1), (row, 1)))
        .collect();
    assert_eq!(
        resolve(&mut sheet, regions),
        Err(Error::TooManyMergedRanges {
            count: MAX_MERGE_REGIONS + 1,
            limit: MAX_MERGE_REGIONS
        })
    );
    assert!(sheet.iter_cells().is_empty());
}

#[test]
fn merged_cells_are_taken_out_once_their_region_is_registered() {
    let mut sheet = Sheet::new("Sheet1".into(), SheetVisibility::Visible);
    for row in 1..=3 {
        for col in 1..=3 {
            sheet.backfill_blank_cell(CellRef { row, col });
        }
    }
    resolve(&mut sheet, vec![region((1, 1), (2, 2)), region((3, 3), (9, 9))]).unwrap();
    let left: Vec<(u32, u32)> =
        sheet.iter_cells().into_iter().map(|(c, _)| (c.row, c.col)).collect();
    assert_eq!(left, vec![(1, 1), (1, 3), (2, 3), (3, 1), (3, 2), (3, 3)]);
    assert_eq!((sheet.max_row, sheet.max_col), (9, 9));
}

#[test]
fn the_reason_for_a_refused_region_is_told() {
    let mut sheet = Sheet::new("Sheet1".into(), SheetVisibility::Visible);
    assert_eq!(
        resolve(&mut sheet, vec![region((3, 3), (1, 4))]),
        Err(Error::InvalidMergedRange {
            start: "C3".to_string(),
            end: "D1".to_string(),
            reason: "start must not be greater than end".to_string()
        })
    );
}
