use xlsxparser::error::fill_io_path;
use xlsxparser::Error;

#[test]
fn fill_io_path_rewrites_none_path_only() {
    let path = "book.xlsx";

    let with_none = Error::Io {
        path: None,
        message: "boom".to_string(),
    };
    match fill_io_path(with_none, path) {
        Error::Io { path: Some(p), .. } => assert_eq!(p, path),
        other => panic!("expected Error::Io {{ path: Some(..), .. }}, got {other:?}"),
    }

    let with_some = Error::Io {
        path: Some("already-set.xlsx".to_string()),
        message: "boom".to_string(),
    };
    match fill_io_path(with_some, path) {
        Error::Io { path: Some(p), .. } => {
            assert_eq!(p, "already-set.xlsx")
        }
        other => panic!("expected Error::Io {{ path: Some(..), .. }}, got {other:?}"),
    }

    let other_variant = Error::XmlParse {
        path: "xl/worksheets/sheet1.xml".to_string(),
    };
    assert!(matches!(
        fill_io_path(other_variant, path),
        Error::XmlParse { .. }
    ));
}

#[test]
fn public_types_are_reachable_from_the_crate_root() {
    fn assert_reachable<T>() {}
    assert_reachable::<xlsxparser::Workbook>();
    assert_reachable::<xlsxparser::Sheet>();
    assert_reachable::<xlsxparser::Cell>();
    assert_reachable::<xlsxparser::CellValue>();
    assert_reachable::<xlsxparser::CellRef>();
    assert_reachable::<xlsxparser::SheetVisibility>();
    assert_reachable::<xlsxparser::MergedRegion>();
    assert_reachable::<xlsxparser::ResolvedStyle>();
    assert_reachable::<xlsxparser::StyleId>();
    assert_reachable::<xlsxparser::Alignment>();
    assert_reachable::<xlsxparser::DateTimeValue>();
    assert_reachable::<xlsxparser::SizeLimits>();
    assert_reachable::<xlsxparser::Error>();
}
