use xlsxparser::model::cell::{column_letters_to_number, column_number_to_letters, CellRef};
use xlsxparser::model::range::{arrange, find_overlap, find_range, find_reversed, ColWidthRange};
use xlsxparser::model::region::{cover, regions_overlap, MergedRegion};
use xlsxparser::number::Number;
use xlsxparser::sort::order_by;
use xlsxparser::text::to_chars;

/// Numbers that look random and are the same in every run.
fn sequence(seed: u64) -> impl FnMut(u32) -> u32 {
    let mut state = seed;
    move |below| {
        state = state.wrapping_mul(6_364_136_223_846_793_005).wrapping_add(1_442_695_040_888_963_407);
        ((state >> 33) as u32) % below
    }
}

fn area(r1: u32, c1: u32, r2: u32, c2: u32) -> MergedRegion {
    MergedRegion {
        start: CellRef { row: r1, col: c1 },
        end: CellRef { row: r2, col: c2 },
    }
}

fn covers(m: &MergedRegion, r: CellRef) -> bool {
    m.start.row <= r.row && r.row <= m.end.row && m.start.col <= r.col && r.col <= m.end.col
}

#[test]
fn ordering_by_key_is_stable() {
    let mut next = sequence(7);
    for n in [0, 1, 2, 10, 100] {
        let keys: Vec<u32> = (0..n).map(|_| next(8)).collect();
        let mut expected: Vec<usize> = (0..keys.len()).collect();
        expected.sort_by_key(|&i| keys[i]);
        assert_eq!(order_by(&keys), expected);
    }
}

#[test]
fn sweeping_finds_what_looking_at_every_area_finds() {
    let mut next = sequence(11);
    for _ in 0..200 {
        let mut areas: Vec<MergedRegion> = Vec::new();
        for _ in 0..20 {
            let (r, c) = (next(30) + 1, next(30) + 1);
            let a = area(r, c, r + next(6), c + next(6));
            if areas.iter().all(|b| !regions_overlap(&a, b)) {
                areas.push(a);
            }
        }
        let mut cells: Vec<CellRef> = Vec::new();
        for row in 1..=36 {
            for col in 1..=36 {
                if next(3) > 0 {
                    cells.push(CellRef { row, col });
                }
            }
        }
        let found = cover(&areas, &cells);
        for (cell, i) in cells.iter().zip(found) {
            assert_eq!(i, areas.iter().position(|a| covers(a, *cell)));
        }
    }
}

#[test]
fn areas_overlap_when_they_share_a_cell() {
    assert!(regions_overlap(&area(1, 1, 2, 2), &area(2, 2, 3, 3)));
    assert!(!regions_overlap(&area(1, 1, 2, 2), &area(1, 3, 2, 4)));
    assert!(!regions_overlap(&area(1, 1, 2, 2), &area(3, 1, 4, 2)));
}

#[test]
fn ranges_are_arranged_and_found_by_halving() {
    let width = |min, max, w: &str| ColWidthRange {
        min,
        max,
        width: Number::parse(w).unwrap(),
    };
    let sorted = arrange(vec![width(10, 12, "3"), width(1, 1, "1"), width(4, 8, "2")]);
    let mins: Vec<u32> = sorted.iter().map(|r| r.min).collect();
    assert_eq!(mins, [1, 4, 10]);
    assert_eq!(find_reversed(&sorted), None);
    assert_eq!(find_overlap(&sorted), None);
    for (col, at) in [(1, Some(0)), (2, None), (4, Some(1)), (8, Some(1)), (9, None), (12, Some(2)), (13, None)] {
        assert_eq!(find_range(&sorted, col), at, "column {col}");
    }
    assert_eq!(find_reversed(&vec![width(1, 1, "1"), width(3, 2, "1")]), Some(1));
    assert_eq!(find_overlap(&arrange(vec![width(3, 4, "1"), width(1, 3, "1")])), Some(1));
}

#[test]
fn column_letters_and_numbers_belong_together() {
    for n in 1..=20_000 {
        let letters = column_number_to_letters(n);
        assert_eq!(column_letters_to_number(&to_chars(&letters)), Some(n));
    }
    assert_eq!(column_number_to_letters(16_384), "XFD");
    assert_eq!(column_number_to_letters(702), "ZZ");
    assert_eq!(column_number_to_letters(703), "AAA");
    assert_eq!(column_letters_to_number(&to_chars("ZZZZZZZZ")), None);
}

#[test]
fn ranges_that_begin_together_keep_their_order() {
    let mut next = sequence(13);
    for n in [0, 1, 2, 3, 50, 20_000] {
        let ranges: Vec<ColWidthRange> = (0..n)
            .map(|i| ColWidthRange { min: next(9), max: i, width: Number::from_integer(1) })
            .collect();
        let mut expected: Vec<(u32, u32)> = ranges.iter().map(|r| (r.min, r.max)).collect();
        expected.sort();
        let got: Vec<(u32, u32)> = arrange(ranges).iter().map(|r| (r.min, r.max)).collect();
        assert_eq!(got, expected);
    }
}
