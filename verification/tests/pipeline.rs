use std::io::{Cursor, Write};
use std::sync::Arc;
use xlsxparser::container::sanitize::SizeLimits;
use xlsxparser::date::SerialParts;
use xlsxparser::model::cell::{CellRef, CellValue};
use xlsxparser::model::color::Rgb;
use xlsxparser::model::sheet::{AnchorMarker, ImageAnchor};
use xlsxparser::model::workbook::Workbook;
use xlsxparser::number::Number;
use xlsxparser::parse::drawing::{GroupContext, Placement};
use xlsxparser::pipeline::{rels_path_for, run as run_pipeline, PACKAGE_RELS_PATH};
use xlsxparser::resolve::color::resolve_color;
use xlsxparser::Error;

fn num(s: &str) -> Number {
    Number::parse(s).unwrap()
}

/// Takes a date serial apart: whole days, and the rest in seconds, rounded.
fn split(n: &Number) -> Option<SerialParts> {
    let serial: f64 = n.as_str().parse().unwrap();
    if !serial.is_finite() || !(0.0..=2_958_465.0).contains(&serial) {
        return None;
    }
    Some(SerialParts {
        day: serial.trunc() as i64,
        seconds: (serial.fract() * 86_400.0).round() as i64,
    })
}

/// Places a picture by applying the transform of every group around it, innermost
/// first.
fn place(groups: &Vec<GroupContext>, off: (i64, i64), ext: (i64, i64)) -> Placement {
    let (mut x, mut y) = (off.0 as f64, off.1 as f64);
    let (mut cx, mut cy) = (ext.0 as f64, ext.1 as f64);
    for g in groups.iter().rev() {
        let scale_x = g.ext_cx as f64 / g.ch_ext_cx as f64;
        let scale_y = g.ext_cy as f64 / g.ch_ext_cy as f64;
        cx *= scale_x;
        cy *= scale_y;
        x = g.off_x as f64 + (x - g.ch_off_x as f64) * scale_x;
        y = g.off_y as f64 + (y - g.ch_off_y as f64) * scale_y;
    }
    let all = [x, y, cx, cy];
    if all.iter().any(|v| !v.is_finite()) {
        return Placement::NonFinite;
    }
    Placement::At {
        dx: x.round() as i64,
        dy: y.round() as i64,
        cx: cx.round() as i64,
        cy: cy.round() as i64,
    }
}

/// Adjusts the luminance of the one color and by the one amount that occur below.
fn apply_tint(base: Rgb, tint: &Number) -> Rgb {
    assert_eq!(base, Rgb { r: 0x4F, g: 0x81, b: 0xBD });
    assert_eq!(tint.as_str(), "-0.25");
    Rgb { r: 0x37, g: 0x60, b: 0x92 }
}

fn run(bytes: Vec<u8>, limits: SizeLimits) -> Result<Workbook, Error> {
    run_pipeline(bytes, limits, &split, &place)
}

fn build_zip(entries: &[(&str, &[u8])]) -> Vec<u8> {
    let mut buf = Vec::new();
    {
        let mut writer = zip::ZipWriter::new(Cursor::new(&mut buf));
        let options = zip::write::SimpleFileOptions::default()
            .compression_method(zip::CompressionMethod::Deflated);
        if !entries.iter().any(|(name, _)| *name == PACKAGE_RELS_PATH) {
            writer.start_file(PACKAGE_RELS_PATH, options).unwrap();
            writer.write_all(DEFAULT_ROOT_RELS_XML).unwrap();
        }
        for (name, data) in entries {
            writer.start_file(*name, options).unwrap();
            writer.write_all(data).unwrap();
        }
        writer.finish().unwrap();
    }
    buf
}

const DEFAULT_ROOT_RELS_XML: &[u8] = br#"<?xml version="1.0" encoding="UTF-8" standalone="yes"?>
<Relationships xmlns="http://schemas.openxmlformats.org/package/2006/relationships">
  <Relationship Id="rId1" Type="http://schemas.openxmlformats.org/officeDocument/2006/relationships/officeDocument" Target="xl/workbook.xml"/>
</Relationships>"#;

const RELS_XML: &[u8] = br#"<?xml version="1.0" encoding="UTF-8" standalone="yes"?>
<Relationships xmlns="http://schemas.openxmlformats.org/package/2006/relationships">
  <Relationship Id="rId1" Type="http://schemas.openxmlformats.org/officeDocument/2006/relationships/worksheet" Target="worksheets/sheet1.xml"/>
  <Relationship Id="rId2" Type="http://schemas.openxmlformats.org/officeDocument/2006/relationships/sharedStrings" Target="sharedStrings.xml"/>
  <Relationship Id="rId3" Type="http://schemas.openxmlformats.org/officeDocument/2006/relationships/styles" Target="styles.xml"/>
</Relationships>"#;

const WORKBOOK_XML: &[u8] = br#"<?xml version="1.0"?>
<workbook xmlns:r="http://schemas.openxmlformats.org/officeDocument/2006/relationships">
  <sheets>
    <sheet name="Sheet1" sheetId="1" r:id="rId1"/>
  </sheets>
</workbook>"#;

const SHARED_STRINGS_XML: &[u8] = b"<sst><si><t>hello</t></si></sst>";

const STYLES_XML: &[u8] = br#"<styleSheet><cellXfs><xf numFmtId="0"/></cellXfs></styleSheet>"#;

const RELS_WITH_THEME: &[u8] = br#"<Relationships xmlns="http://schemas.openxmlformats.org/package/2006/relationships">
  <Relationship Id="rId1" Type="http://schemas.openxmlformats.org/officeDocument/2006/relationships/worksheet" Target="worksheets/sheet1.xml"/>
  <Relationship Id="rId3" Type="http://schemas.openxmlformats.org/officeDocument/2006/relationships/styles" Target="styles.xml"/>
  <Relationship Id="rId6" Type="http://schemas.openxmlformats.org/officeDocument/2006/relationships/theme" Target="theme/theme1.xml"/>
</Relationships>"#;

const STYLES_WITH_THEME_COLOR_XML: &[u8] = br#"<styleSheet>
<fills count="1"><fill><patternFill patternType="solid"><fgColor theme="4" tint="-0.25"/></patternFill></fill></fills>
<cellXfs><xf numFmtId="0" fillId="0"/></cellXfs>
</styleSheet>"#;

const WORKSHEET_WITH_STYLE_XML: &[u8] =
    br#"<worksheet><sheetData><row r="1"><c r="A1" s="0"><v>1</v></c></row></sheetData></worksheet>"#;

const THEME1_XML: &[u8] =
    br#"<a:theme xmlns:a="http://schemas.openxmlformats.org/drawingml/2006/main">
<a:themeElements>
<a:clrScheme name="Office">
<a:dk1><a:sysClr val="windowText" lastClr="000000"/></a:dk1>
<a:lt1><a:sysClr val="window" lastClr="FFFFFF"/></a:lt1>
<a:dk2><a:srgbClr val="1F497D"/></a:dk2>
<a:lt2><a:srgbClr val="EEECE1"/></a:lt2>
<a:accent1><a:srgbClr val="4F81BD"/></a:accent1>
<a:accent2><a:srgbClr val="C0504D"/></a:accent2>
<a:accent3><a:srgbClr val="9BBB59"/></a:accent3>
<a:accent4><a:srgbClr val="8064A2"/></a:accent4>
<a:accent5><a:srgbClr val="4BACC6"/></a:accent5>
<a:accent6><a:srgbClr val="F79646"/></a:accent6>
<a:hlink><a:srgbClr val="0000FF"/></a:hlink>
<a:folHlink><a:srgbClr val="800080"/></a:folHlink>
</a:clrScheme>
</a:themeElements>
</a:theme>"#;

const WORKSHEET_XML: &[u8] = br#"<worksheet><sheetData>
<row r="1">
  <c r="A1"><v>42</v></c>
  <c r="B1" t="s"><v>0</v></c>
</row>
</sheetData>
<mergeCells count="1"><mergeCell ref="C1:D1"/></mergeCells>
</worksheet>"#;

fn minimal_xlsx() -> Vec<u8> {
    build_zip(&[
        ("xl/_rels/workbook.xml.rels", RELS_XML),
        ("xl/workbook.xml", WORKBOOK_XML),
        ("xl/sharedStrings.xml", SHARED_STRINGS_XML),
        ("xl/styles.xml", STYLES_XML),
        ("xl/worksheets/sheet1.xml", WORKSHEET_XML),
    ])
}

#[test]
fn minimal_valid_xlsx_resolves_end_to_end() {
    let workbook = run(minimal_xlsx(), SizeLimits::default()).unwrap();

    assert_eq!(workbook.sheets().len(), 1);
    let sheet = &workbook.sheets()[0];
    assert_eq!(sheet.name, "Sheet1");
    assert_eq!(
        sheet.get(CellRef { row: 1, col: 1 }).unwrap().value,
        Some(CellValue::Number(num("42")))
    );
    assert_eq!(
        sheet.get(CellRef { row: 1, col: 2 }).unwrap().value,
        Some(CellValue::Text(Arc::new("hello".to_string())))
    );
    assert_eq!(
        sheet.get(CellRef { row: 1, col: 3 }),
        sheet.get(CellRef { row: 1, col: 4 })
    );
    assert!(workbook.theme().is_none());
}

#[test]
fn theme_resolves_end_to_end_when_a_style_references_a_theme_color() {
    let zip = build_zip(&[
        ("xl/_rels/workbook.xml.rels", RELS_WITH_THEME),
        ("xl/workbook.xml", WORKBOOK_XML),
        ("xl/styles.xml", STYLES_WITH_THEME_COLOR_XML),
        ("xl/worksheets/sheet1.xml", WORKSHEET_WITH_STYLE_XML),
        ("xl/theme/theme1.xml", THEME1_XML),
    ]);
    let workbook = run(zip, SizeLimits::default()).unwrap();

    let theme = workbook
        .theme()
        .expect("theme part referenced by a used ColorRef::Theme must resolve");
    assert_eq!(
        theme.0[4],
        Rgb {
            r: 0x4F,
            g: 0x81,
            b: 0xBD
        }
    );

    let sheet = &workbook.sheets()[0];
    let cell = sheet.get(CellRef { row: 1, col: 1 }).unwrap();
    let color = cell
        .style
        .as_ref()
        .expect("cell references styleId 0")
        .fill_fg_color
        .as_ref()
        .expect("styleId 0's fill has a theme fgColor");
    let resolved = resolve_color(color, workbook.theme(), &apply_tint);
    assert_eq!(
        resolved,
        Some(Rgb {
            r: 0x37,
            g: 0x60,
            b: 0x92
        })
    );
}

#[test]
fn theme_part_present_but_unused_is_never_read() {
    let zip = build_zip(&[
        ("xl/_rels/workbook.xml.rels", RELS_WITH_THEME),
        ("xl/workbook.xml", WORKBOOK_XML),
        ("xl/styles.xml", STYLES_XML),
        ("xl/worksheets/sheet1.xml", WORKSHEET_WITH_STYLE_XML),
        ("xl/theme/theme1.xml", b"<not even well-formed xml"),
    ]);
    let workbook = run(zip, SizeLimits::default()).unwrap();
    assert!(workbook.theme().is_none());
}

#[test]
fn missing_theme_entity_when_referenced_is_invalid_package() {
    let zip = build_zip(&[
        ("xl/_rels/workbook.xml.rels", RELS_WITH_THEME),
        ("xl/workbook.xml", WORKBOOK_XML),
        ("xl/styles.xml", STYLES_WITH_THEME_COLOR_XML),
        ("xl/worksheets/sheet1.xml", WORKSHEET_WITH_STYLE_XML),
    ]);
    let err = run(zip, SizeLimits::default()).unwrap_err();
    assert!(matches!(err, Error::InvalidPackage(_)));
}

#[test]
fn cell_ref_beyond_excels_real_maximum_is_invalid_cell_ref() {
    let sheet_with_forged_coordinate: &[u8] =
        br#"<worksheet><sheetData><row r="1"><c r="ZZZZZZ4294967294"><v>1</v></c></row></sheetData></worksheet>"#;
    let zip = build_zip(&[
        ("xl/_rels/workbook.xml.rels", RELS_XML),
        ("xl/workbook.xml", WORKBOOK_XML),
        ("xl/sharedStrings.xml", SHARED_STRINGS_XML),
        ("xl/styles.xml", STYLES_XML),
        ("xl/worksheets/sheet1.xml", sheet_with_forged_coordinate),
    ]);
    let err = run(zip, SizeLimits::default()).unwrap_err();
    assert!(matches!(err, Error::InvalidCellRef(_)));
}

#[test]
fn package_absolute_relationship_target_resolves_like_openpyxl_output() {
    let rels_with_absolute_worksheet_target: &[u8] = br#"<Relationships xmlns="http://schemas.openxmlformats.org/package/2006/relationships">
  <Relationship Id="rId1" Type="http://schemas.openxmlformats.org/officeDocument/2006/relationships/worksheet" Target="/xl/worksheets/sheet1.xml"/>
  <Relationship Id="rId2" Type="http://schemas.openxmlformats.org/officeDocument/2006/relationships/sharedStrings" Target="sharedStrings.xml"/>
  <Relationship Id="rId3" Type="http://schemas.openxmlformats.org/officeDocument/2006/relationships/styles" Target="styles.xml"/>
</Relationships>"#;
    let zip = build_zip(&[
        (
            "xl/_rels/workbook.xml.rels",
            rels_with_absolute_worksheet_target,
        ),
        ("xl/workbook.xml", WORKBOOK_XML),
        ("xl/sharedStrings.xml", SHARED_STRINGS_XML),
        ("xl/styles.xml", STYLES_XML),
        ("xl/worksheets/sheet1.xml", WORKSHEET_XML),
    ]);
    let workbook = run(zip, SizeLimits::default()).unwrap();
    assert_eq!(workbook.sheets().len(), 1);
}

#[test]
fn excessive_merge_cell_count_is_too_many_merged_ranges() {
    let mut merge_cells = String::from("<mergeCells count=\"20001\">");
    for i in 1..=20_001u32 {
        merge_cells.push_str(&format!("<mergeCell ref=\"A{i}:B{i}\"/>"));
    }
    merge_cells.push_str("</mergeCells>");
    let sheet_with_excessive_merges =
        format!("<worksheet><sheetData></sheetData>{merge_cells}</worksheet>");

    let zip = build_zip(&[
        ("xl/_rels/workbook.xml.rels", RELS_XML),
        ("xl/workbook.xml", WORKBOOK_XML),
        ("xl/sharedStrings.xml", SHARED_STRINGS_XML),
        ("xl/styles.xml", STYLES_XML),
        (
            "xl/worksheets/sheet1.xml",
            sheet_with_excessive_merges.as_bytes(),
        ),
    ]);
    let err = run(zip, SizeLimits::default()).unwrap_err();
    assert!(matches!(err, Error::TooManyMergedRanges { .. }));
}

#[test]
fn excessive_col_width_range_count_is_too_many_column_width_ranges() {
    let mut cols = String::from("<cols>");
    for i in 1..=2_001u32 {
        cols.push_str(&format!("<col min=\"{i}\" max=\"{i}\" width=\"10\"/>"));
    }
    cols.push_str("</cols>");
    let sheet_with_excessive_col_widths =
        format!("<worksheet>{cols}<sheetData></sheetData></worksheet>");

    let zip = build_zip(&[
        ("xl/_rels/workbook.xml.rels", RELS_XML),
        ("xl/workbook.xml", WORKBOOK_XML),
        ("xl/sharedStrings.xml", SHARED_STRINGS_XML),
        ("xl/styles.xml", STYLES_XML),
        (
            "xl/worksheets/sheet1.xml",
            sheet_with_excessive_col_widths.as_bytes(),
        ),
    ]);
    let err = run(zip, SizeLimits::default()).unwrap_err();
    assert!(matches!(err, Error::TooManyColumnWidthRanges { .. }));
}

#[test]
fn full_width_single_col_range_registers_without_hanging() {
    let sheet_with_full_width_col = r#"<worksheet>
<cols><col min="1" max="16384" width="8.43"/></cols>
<sheetData><row r="1"><c r="A1"><v>1</v></c></row></sheetData>
</worksheet>"#;

    let zip = build_zip(&[
        ("xl/_rels/workbook.xml.rels", RELS_XML),
        ("xl/workbook.xml", WORKBOOK_XML),
        ("xl/sharedStrings.xml", SHARED_STRINGS_XML),
        ("xl/styles.xml", STYLES_XML),
        (
            "xl/worksheets/sheet1.xml",
            sheet_with_full_width_col.as_bytes(),
        ),
    ]);
    let workbook = run(zip, SizeLimits::default()).unwrap();
    let sheet = &workbook.sheets()[0];
    assert_eq!(sheet.column_width(1), Some(&num("8.43")));
    assert_eq!(sheet.column_width(16_384), Some(&num("8.43")));
}

#[test]
fn caller_supplied_size_limits_are_forwarded_to_the_container() {
    run(minimal_xlsx(), SizeLimits::default()).unwrap();

    let tiny_limits = SizeLimits {
        max_entry_size: 1,
        ..SizeLimits::default()
    };
    let err = run(minimal_xlsx(), tiny_limits).unwrap_err();
    assert!(matches!(err, Error::ZipBombDetected { .. }));
}

#[test]
fn missing_workbook_rels_is_missing_relationship_part() {
    let zip = build_zip(&[("xl/workbook.xml", WORKBOOK_XML)]);
    let err = run(zip, SizeLimits::default()).unwrap_err();
    assert!(matches!(err, Error::MissingRelationshipPart(_)));
}

#[test]
fn missing_workbook_xml_is_invalid_package() {
    let zip = build_zip(&[("xl/_rels/workbook.xml.rels", RELS_XML)]);
    let err = run(zip, SizeLimits::default()).unwrap_err();
    assert!(matches!(err, Error::InvalidPackage(_)));
}

fn build_zip_raw(entries: &[(&str, &[u8])]) -> Vec<u8> {
    let mut buf = Vec::new();
    {
        let mut writer = zip::ZipWriter::new(Cursor::new(&mut buf));
        let options = zip::write::SimpleFileOptions::default()
            .compression_method(zip::CompressionMethod::Deflated);
        for (name, data) in entries {
            writer.start_file(*name, options).unwrap();
            writer.write_all(data).unwrap();
        }
        writer.finish().unwrap();
    }
    buf
}

#[test]
fn missing_package_rels_is_missing_relationship_part() {
    let zip = build_zip_raw(&[]);
    let err = run(zip, SizeLimits::default()).unwrap_err();
    assert!(matches!(err, Error::MissingRelationshipPart(ref p) if p == PACKAGE_RELS_PATH));
}

#[test]
fn package_rels_without_office_document_relationship_is_invalid_package() {
    let root_rels_without_office_document: &[u8] = br#"<Relationships xmlns="http://schemas.openxmlformats.org/package/2006/relationships">
  <Relationship Id="rId1" Type="http://schemas.openxmlformats.org/officeDocument/2006/relationships/core-properties" Target="docProps/core.xml"/>
</Relationships>"#;
    let zip = build_zip_raw(&[("_rels/.rels", root_rels_without_office_document)]);
    let err = run(zip, SizeLimits::default()).unwrap_err();
    assert!(matches!(err, Error::InvalidPackage(ref p) if p == PACKAGE_RELS_PATH));
}

#[test]
fn workbook_part_at_package_root_resolves_via_root_rels() {
    let root_rels: &[u8] = br#"<Relationships xmlns="http://schemas.openxmlformats.org/package/2006/relationships">
  <Relationship Id="rId1" Type="http://schemas.openxmlformats.org/officeDocument/2006/relationships/officeDocument" Target="workbook.xml"/>
</Relationships>"#;
    let workbook_rels_at_root: &[u8] = br#"<Relationships xmlns="http://schemas.openxmlformats.org/package/2006/relationships">
  <Relationship Id="rId1" Type="http://schemas.openxmlformats.org/officeDocument/2006/relationships/worksheet" Target="sheet1.xml"/>
</Relationships>"#;
    let worksheet_without_shared_strings: &[u8] =
        br#"<worksheet><sheetData><row r="1"><c r="A1"><v>42</v></c></row></sheetData></worksheet>"#;
    let zip = build_zip_raw(&[
        ("_rels/.rels", root_rels),
        ("_rels/workbook.xml.rels", workbook_rels_at_root),
        ("workbook.xml", WORKBOOK_XML),
        ("sheet1.xml", worksheet_without_shared_strings),
    ]);

    let workbook = run(zip, SizeLimits::default()).unwrap();

    assert_eq!(workbook.sheets().len(), 1);
    assert_eq!(
        workbook.sheets()[0]
            .get(CellRef { row: 1, col: 1 })
            .unwrap()
            .value,
        Some(CellValue::Number(num("42")))
    );
}

#[test]
fn dangling_sheet_relationship_is_dangling_relationship() {
    let rels_without_sheet_rel: &[u8] = br#"<Relationships xmlns="http://schemas.openxmlformats.org/package/2006/relationships">
  <Relationship Id="rId3" Type="http://schemas.openxmlformats.org/officeDocument/2006/relationships/styles" Target="styles.xml"/>
</Relationships>"#;
    let zip = build_zip(&[
        ("xl/_rels/workbook.xml.rels", rels_without_sheet_rel),
        ("xl/workbook.xml", WORKBOOK_XML),
        ("xl/styles.xml", STYLES_XML),
    ]);
    let err = run(zip, SizeLimits::default()).unwrap_err();
    assert!(matches!(err, Error::DanglingRelationship { .. }));
}

#[test]
fn missing_styles_relationship_falls_back_to_empty_stylesheet() {
    let rels_without_styles: &[u8] = br#"<Relationships xmlns="http://schemas.openxmlformats.org/package/2006/relationships">
  <Relationship Id="rId1" Type="http://schemas.openxmlformats.org/officeDocument/2006/relationships/worksheet" Target="worksheets/sheet1.xml"/>
</Relationships>"#;
    let plain_sheet: &[u8] = br#"<worksheet><sheetData>
<row r="1"><c r="A1"><v>1</v></c></row>
</sheetData></worksheet>"#;
    let zip = build_zip(&[
        ("xl/_rels/workbook.xml.rels", rels_without_styles),
        ("xl/workbook.xml", WORKBOOK_XML),
        ("xl/worksheets/sheet1.xml", plain_sheet),
    ]);
    let workbook = run(zip, SizeLimits::default()).unwrap();
    assert_eq!(
        workbook.sheets()[0]
            .get(CellRef { row: 1, col: 1 })
            .unwrap()
            .value,
        Some(CellValue::Number(num("1")))
    );
}

#[test]
fn missing_styles_entity_is_invalid_package() {
    let zip = build_zip(&[
        ("xl/_rels/workbook.xml.rels", RELS_XML),
        ("xl/workbook.xml", WORKBOOK_XML),
        ("xl/sharedStrings.xml", SHARED_STRINGS_XML),
        ("xl/worksheets/sheet1.xml", WORKSHEET_XML),
    ]);
    let err = run(zip, SizeLimits::default()).unwrap_err();
    assert!(matches!(err, Error::InvalidPackage(_)));
}

#[test]
fn missing_worksheet_entity_is_dangling_relationship() {
    let zip = build_zip(&[
        ("xl/_rels/workbook.xml.rels", RELS_XML),
        ("xl/workbook.xml", WORKBOOK_XML),
        ("xl/sharedStrings.xml", SHARED_STRINGS_XML),
        ("xl/styles.xml", STYLES_XML),
    ]);
    let err = run(zip, SizeLimits::default()).unwrap_err();
    assert!(matches!(err, Error::DanglingRelationship { .. }));
}

#[test]
fn missing_shared_strings_part_falls_back_to_empty_table() {
    let rels_without_shared_strings: &[u8] = br#"<Relationships xmlns="http://schemas.openxmlformats.org/package/2006/relationships">
  <Relationship Id="rId1" Type="http://schemas.openxmlformats.org/officeDocument/2006/relationships/worksheet" Target="worksheets/sheet1.xml"/>
  <Relationship Id="rId3" Type="http://schemas.openxmlformats.org/officeDocument/2006/relationships/styles" Target="styles.xml"/>
</Relationships>"#;
    let workbook_no_strings: &[u8] = br#"<worksheet><sheetData>
<row r="1"><c r="A1"><v>1</v></c></row>
</sheetData></worksheet>"#;
    let zip = build_zip(&[
        ("xl/_rels/workbook.xml.rels", rels_without_shared_strings),
        ("xl/workbook.xml", WORKBOOK_XML),
        ("xl/styles.xml", STYLES_XML),
        ("xl/worksheets/sheet1.xml", workbook_no_strings),
    ]);
    let workbook = run(zip, SizeLimits::default()).unwrap();
    assert_eq!(workbook.sheets().len(), 1);
}

#[test]
fn multiple_sheets_preserve_definition_order() {
    let workbook_two_sheets: &[u8] = br#"<?xml version="1.0"?>
<workbook xmlns:r="http://schemas.openxmlformats.org/officeDocument/2006/relationships">
  <sheets>
    <sheet name="First" sheetId="1" r:id="rId1"/>
    <sheet name="Second" sheetId="2" r:id="rId4"/>
  </sheets>
</workbook>"#;
    let rels_two_sheets: &[u8] = br#"<Relationships xmlns="http://schemas.openxmlformats.org/package/2006/relationships">
  <Relationship Id="rId1" Type="http://schemas.openxmlformats.org/officeDocument/2006/relationships/worksheet" Target="worksheets/sheet1.xml"/>
  <Relationship Id="rId4" Type="http://schemas.openxmlformats.org/officeDocument/2006/relationships/worksheet" Target="worksheets/sheet2.xml"/>
  <Relationship Id="rId3" Type="http://schemas.openxmlformats.org/officeDocument/2006/relationships/styles" Target="styles.xml"/>
</Relationships>"#;
    let blank_sheet: &[u8] = b"<worksheet><sheetData></sheetData></worksheet>";
    let zip = build_zip(&[
        ("xl/_rels/workbook.xml.rels", rels_two_sheets),
        ("xl/workbook.xml", workbook_two_sheets),
        ("xl/styles.xml", STYLES_XML),
        ("xl/worksheets/sheet1.xml", blank_sheet),
        ("xl/worksheets/sheet2.xml", blank_sheet),
    ]);
    let workbook = run(zip, SizeLimits::default()).unwrap();
    let names: Vec<&str> = workbook.sheets().iter().map(|s| s.name.as_str()).collect();
    assert_eq!(names, vec!["First", "Second"]);
}

#[test]
fn second_sheet_failure_fails_the_whole_run() {
    let workbook_two_sheets: &[u8] = br#"<?xml version="1.0"?>
<workbook xmlns:r="http://schemas.openxmlformats.org/officeDocument/2006/relationships">
  <sheets>
    <sheet name="First" sheetId="1" r:id="rId1"/>
    <sheet name="Second" sheetId="2" r:id="rId4"/>
  </sheets>
</workbook>"#;
    let rels_two_sheets: &[u8] = br#"<Relationships xmlns="http://schemas.openxmlformats.org/package/2006/relationships">
  <Relationship Id="rId1" Type="http://schemas.openxmlformats.org/officeDocument/2006/relationships/worksheet" Target="worksheets/sheet1.xml"/>
  <Relationship Id="rId4" Type="http://schemas.openxmlformats.org/officeDocument/2006/relationships/worksheet" Target="worksheets/sheet2.xml"/>
  <Relationship Id="rId3" Type="http://schemas.openxmlformats.org/officeDocument/2006/relationships/styles" Target="styles.xml"/>
</Relationships>"#;
    let good_sheet: &[u8] = b"<worksheet><sheetData></sheetData></worksheet>";
    let broken_sheet: &[u8] =
        br#"<worksheet><sheetData><row r="1"><c r="1A" t="n"><v>1</v></c></row></sheetData></worksheet>"#;
    let zip = build_zip(&[
        ("xl/_rels/workbook.xml.rels", rels_two_sheets),
        ("xl/workbook.xml", workbook_two_sheets),
        ("xl/styles.xml", STYLES_XML),
        ("xl/worksheets/sheet1.xml", good_sheet),
        ("xl/worksheets/sheet2.xml", broken_sheet),
    ]);
    let err = run(zip, SizeLimits::default()).unwrap_err();
    assert!(matches!(err, Error::InvalidCellRef(_)));
}

#[test]
fn hidden_and_very_hidden_sheets_are_all_included() {
    let workbook_hidden: &[u8] = br#"<?xml version="1.0"?>
<workbook xmlns:r="http://schemas.openxmlformats.org/officeDocument/2006/relationships">
  <sheets>
    <sheet name="Visible" sheetId="1" r:id="rId1"/>
    <sheet name="Hidden" sheetId="2" r:id="rId4" state="hidden"/>
    <sheet name="VeryHidden" sheetId="3" r:id="rId5" state="veryHidden"/>
  </sheets>
</workbook>"#;
    let rels_hidden: &[u8] = br#"<Relationships xmlns="http://schemas.openxmlformats.org/package/2006/relationships">
  <Relationship Id="rId1" Type="http://schemas.openxmlformats.org/officeDocument/2006/relationships/worksheet" Target="worksheets/sheet1.xml"/>
  <Relationship Id="rId4" Type="http://schemas.openxmlformats.org/officeDocument/2006/relationships/worksheet" Target="worksheets/sheet2.xml"/>
  <Relationship Id="rId5" Type="http://schemas.openxmlformats.org/officeDocument/2006/relationships/worksheet" Target="worksheets/sheet3.xml"/>
  <Relationship Id="rId3" Type="http://schemas.openxmlformats.org/officeDocument/2006/relationships/styles" Target="styles.xml"/>
</Relationships>"#;
    let blank_sheet: &[u8] = b"<worksheet><sheetData></sheetData></worksheet>";
    let zip = build_zip(&[
        ("xl/_rels/workbook.xml.rels", rels_hidden),
        ("xl/workbook.xml", workbook_hidden),
        ("xl/styles.xml", STYLES_XML),
        ("xl/worksheets/sheet1.xml", blank_sheet),
        ("xl/worksheets/sheet2.xml", blank_sheet),
        ("xl/worksheets/sheet3.xml", blank_sheet),
    ]);
    let workbook = run(zip, SizeLimits::default()).unwrap();
    assert_eq!(workbook.sheets().len(), 3);
}

const WORKSHEET_WITH_DRAWING_XML: &[u8] =
    br#"<worksheet><sheetData></sheetData><drawing r:id="rIdDrawing"/></worksheet>"#;

const WORKSHEET_RELS_WITH_DRAWING: &[u8] = br#"<Relationships xmlns="http://schemas.openxmlformats.org/package/2006/relationships">
  <Relationship Id="rIdDrawing" Type="http://schemas.openxmlformats.org/officeDocument/2006/relationships/drawing" Target="../drawings/drawing1.xml"/>
</Relationships>"#;

const DRAWING1_XML: &[u8] = br#"<xdr:wsDr xmlns:xdr="http://schemas.openxmlformats.org/drawingml/2006/spreadsheetDrawing" xmlns:a="http://schemas.openxmlformats.org/drawingml/2006/main" xmlns:r="http://schemas.openxmlformats.org/officeDocument/2006/relationships">
  <xdr:twoCellAnchor>
    <xdr:from><xdr:col>1</xdr:col><xdr:colOff>10</xdr:colOff><xdr:row>2</xdr:row><xdr:rowOff>20</xdr:rowOff></xdr:from>
    <xdr:to><xdr:col>5</xdr:col><xdr:colOff>0</xdr:colOff><xdr:row>10</xdr:row><xdr:rowOff>0</xdr:rowOff></xdr:to>
    <xdr:pic>
      <xdr:nvPicPr>
        <xdr:cNvPr id="2" name="Picture 1">
          <a:hlinkClick r:id="rIdHyperlink"/>
        </xdr:cNvPr>
        <xdr:cNvPicPr/>
      </xdr:nvPicPr>
      <xdr:blipFill><a:blip r:embed="rIdEmbed"/></xdr:blipFill>
    </xdr:pic>
    <xdr:clientData/>
  </xdr:twoCellAnchor>
</xdr:wsDr>"#;

const DRAWING1_RELS_XML: &[u8] = br#"<Relationships xmlns="http://schemas.openxmlformats.org/package/2006/relationships">
  <Relationship Id="rIdEmbed" Type="http://schemas.openxmlformats.org/officeDocument/2006/relationships/image" Target="../media/image1.png"/>
  <Relationship Id="rIdHyperlink" Type="http://schemas.openxmlformats.org/officeDocument/2006/relationships/hyperlink" Target="https://example.com" TargetMode="External"/>
</Relationships>"#;

fn xlsx_with_drawing_entries() -> Vec<(&'static str, &'static [u8])> {
    vec![
        ("xl/_rels/workbook.xml.rels", RELS_XML),
        ("xl/workbook.xml", WORKBOOK_XML),
        ("xl/sharedStrings.xml", SHARED_STRINGS_XML),
        ("xl/styles.xml", STYLES_XML),
        ("xl/worksheets/sheet1.xml", WORKSHEET_WITH_DRAWING_XML),
        (
            "xl/worksheets/_rels/sheet1.xml.rels",
            WORKSHEET_RELS_WITH_DRAWING,
        ),
        ("xl/drawings/drawing1.xml", DRAWING1_XML),
        ("xl/drawings/_rels/drawing1.xml.rels", DRAWING1_RELS_XML),
        ("xl/media/image1.png", b"\x89PNG\r\n\x1a\n" as &[u8]),
    ]
}

#[test]
fn image_anchor_resolves_end_to_end_with_embed_and_hyperlink() {
    let zip = build_zip(&xlsx_with_drawing_entries());
    let workbook = run(zip, SizeLimits::default()).unwrap();
    let images = workbook.sheets()[0].images();
    assert_eq!(images.len(), 1);
    let image = &images[0];
    assert_eq!(image.target, "xl/media/image1.png");
    assert_eq!(image.hyperlink.as_deref(), Some("https://example.com"));
    assert_eq!(
        image.anchor,
        ImageAnchor::TwoCell {
            from: AnchorMarker {
                cell: CellRef { row: 3, col: 2 },
                col_off: 10,
                row_off: 20,
            },
            to: AnchorMarker {
                cell: CellRef { row: 11, col: 6 },
                col_off: 0,
                row_off: 0,
            },
        }
    );
}

#[test]
fn sheet_without_drawing_element_has_no_images() {
    let zip = build_zip(&minimal_xlsx_entries());
    let workbook = run(zip, SizeLimits::default()).unwrap();
    assert!(workbook.sheets()[0].images().is_empty());
}

fn minimal_xlsx_entries() -> Vec<(&'static str, &'static [u8])> {
    vec![
        ("xl/_rels/workbook.xml.rels", RELS_XML),
        ("xl/workbook.xml", WORKBOOK_XML),
        ("xl/sharedStrings.xml", SHARED_STRINGS_XML),
        ("xl/styles.xml", STYLES_XML),
        ("xl/worksheets/sheet1.xml", WORKSHEET_XML),
    ]
}

#[test]
fn drawing_r_id_with_no_worksheet_rels_part_is_dangling_relationship() {
    let mut entries = xlsx_with_drawing_entries();
    entries.retain(|(name, _)| *name != "xl/worksheets/_rels/sheet1.xml.rels");
    let zip = build_zip(&entries);
    let err = run(zip, SizeLimits::default()).unwrap_err();
    assert!(matches!(err, Error::DanglingRelationship { .. }));
}

#[test]
fn drawing_r_id_not_in_worksheet_rels_is_dangling_relationship() {
    let rels_without_the_drawing_id: &[u8] = br#"<Relationships xmlns="http://schemas.openxmlformats.org/package/2006/relationships"></Relationships>"#;
    let mut entries = xlsx_with_drawing_entries();
    for entry in &mut entries {
        if entry.0 == "xl/worksheets/_rels/sheet1.xml.rels" {
            entry.1 = rels_without_the_drawing_id;
        }
    }
    let zip = build_zip(&entries);
    let err = run(zip, SizeLimits::default()).unwrap_err();
    assert!(matches!(err, Error::DanglingRelationship { .. }));
}

#[test]
fn missing_drawing_entity_is_dangling_relationship() {
    let mut entries = xlsx_with_drawing_entries();
    entries.retain(|(name, _)| *name != "xl/drawings/drawing1.xml");
    let zip = build_zip(&entries);
    let err = run(zip, SizeLimits::default()).unwrap_err();
    assert!(matches!(err, Error::DanglingRelationship { .. }));
}

#[test]
fn missing_embedded_media_entity_is_dangling_relationship() {
    let mut entries = xlsx_with_drawing_entries();
    entries.retain(|(name, _)| *name != "xl/media/image1.png");
    let zip = build_zip(&entries);
    let err = run(zip, SizeLimits::default()).unwrap_err();
    assert!(matches!(err, Error::DanglingRelationship { .. }));
}

#[test]
fn missing_drawing_rels_part_is_dangling_relationship() {
    let mut entries = xlsx_with_drawing_entries();
    entries.retain(|(name, _)| *name != "xl/drawings/_rels/drawing1.xml.rels");
    let zip = build_zip(&entries);
    let err = run(zip, SizeLimits::default()).unwrap_err();
    assert!(matches!(err, Error::DanglingRelationship { .. }));
}

#[test]
fn rels_path_for_with_no_directory_component() {
    assert_eq!(
        rels_path_for("sheet1.xml"),
        ("_rels/sheet1.xml.rels".to_string(), String::new())
    );
}

#[test]
fn malformed_worksheet_rels_xml_propagates_parse_error() {
    let malformed_rels: &[u8] =
        br#"<Relationships xmlns="http://schemas.openxmlformats.org/package/2006/relationships"><Relationship Id="rIdDrawing"/></Relationships>"#;
    let mut entries = xlsx_with_drawing_entries();
    for entry in &mut entries {
        if entry.0 == "xl/worksheets/_rels/sheet1.xml.rels" {
            entry.1 = malformed_rels;
        }
    }
    let zip = build_zip(&entries);
    let err = run(zip, SizeLimits::default()).unwrap_err();
    assert!(matches!(err, Error::MissingRequiredElement { .. }));
}

#[test]
fn malformed_drawing_rels_xml_propagates_parse_error() {
    let malformed_rels: &[u8] =
        br#"<Relationships xmlns="http://schemas.openxmlformats.org/package/2006/relationships"><Relationship Id="rIdEmbed"/></Relationships>"#;
    let mut entries = xlsx_with_drawing_entries();
    for entry in &mut entries {
        if entry.0 == "xl/drawings/_rels/drawing1.xml.rels" {
            entry.1 = malformed_rels;
        }
    }
    let zip = build_zip(&entries);
    let err = run(zip, SizeLimits::default()).unwrap_err();
    assert!(matches!(err, Error::MissingRequiredElement { .. }));
}

#[test]
fn drawing_with_no_picture_anchors_yields_no_images() {
    let drawing_without_pic: &[u8] = br#"<xdr:wsDr xmlns:xdr="http://schemas.openxmlformats.org/drawingml/2006/spreadsheetDrawing" xmlns:a="http://schemas.openxmlformats.org/drawingml/2006/main" xmlns:r="http://schemas.openxmlformats.org/officeDocument/2006/relationships">
  <xdr:twoCellAnchor>
    <xdr:from><xdr:col>0</xdr:col><xdr:colOff>0</xdr:colOff><xdr:row>0</xdr:row><xdr:rowOff>0</xdr:rowOff></xdr:from>
    <xdr:to><xdr:col>1</xdr:col><xdr:colOff>0</xdr:colOff><xdr:row>1</xdr:row><xdr:rowOff>0</xdr:rowOff></xdr:to>
    <xdr:sp/>
    <xdr:clientData/>
  </xdr:twoCellAnchor>
</xdr:wsDr>"#;
    let mut entries = xlsx_with_drawing_entries();
    entries.retain(|(name, _)| {
        !matches!(
            *name,
            "xl/drawings/_rels/drawing1.xml.rels" | "xl/media/image1.png"
        )
    });
    for entry in &mut entries {
        if entry.0 == "xl/drawings/drawing1.xml" {
            entry.1 = drawing_without_pic;
        }
    }
    let zip = build_zip(&entries);
    let workbook = run(zip, SizeLimits::default()).unwrap();
    assert!(workbook.sheets()[0].images().is_empty());
}

#[test]
fn embed_r_id_not_in_drawing_rels_is_dangling_relationship() {
    let rels_without_embed: &[u8] = br#"<Relationships xmlns="http://schemas.openxmlformats.org/package/2006/relationships">
  <Relationship Id="rIdUnrelated" Type="http://schemas.openxmlformats.org/officeDocument/2006/relationships/image" Target="../media/image1.png"/>
</Relationships>"#;
    let mut entries = xlsx_with_drawing_entries();
    for entry in &mut entries {
        if entry.0 == "xl/drawings/_rels/drawing1.xml.rels" {
            entry.1 = rels_without_embed;
        }
    }
    let zip = build_zip(&entries);
    let err = run(zip, SizeLimits::default()).unwrap_err();
    assert!(matches!(err, Error::DanglingRelationship { .. }));
}

#[test]
fn hyperlink_r_id_not_in_drawing_rels_degrades_to_no_hyperlink() {
    let rels_without_hyperlink: &[u8] = br#"<Relationships xmlns="http://schemas.openxmlformats.org/package/2006/relationships">
  <Relationship Id="rIdEmbed" Type="http://schemas.openxmlformats.org/officeDocument/2006/relationships/image" Target="../media/image1.png"/>
</Relationships>"#;
    let mut entries = xlsx_with_drawing_entries();
    for entry in &mut entries {
        if entry.0 == "xl/drawings/_rels/drawing1.xml.rels" {
            entry.1 = rels_without_hyperlink;
        }
    }
    let zip = build_zip(&entries);
    let workbook = run(zip, SizeLimits::default()).unwrap();
    let images = workbook.sheets()[0].images();
    assert_eq!(images.len(), 1);
    assert_eq!(images[0].target, "xl/media/image1.png");
    assert_eq!(images[0].hyperlink, None);
}

#[test]
fn internal_hyperlink_target_missing_degrades_to_no_hyperlink() {
    let rels_with_internal_hyperlink: &[u8] = br#"<Relationships xmlns="http://schemas.openxmlformats.org/package/2006/relationships">
  <Relationship Id="rIdEmbed" Type="http://schemas.openxmlformats.org/officeDocument/2006/relationships/image" Target="../media/image1.png"/>
  <Relationship Id="rIdHyperlink" Type="http://schemas.openxmlformats.org/officeDocument/2006/relationships/hyperlink" Target="../other/missing.xml"/>
</Relationships>"#;
    let mut entries = xlsx_with_drawing_entries();
    for entry in &mut entries {
        if entry.0 == "xl/drawings/_rels/drawing1.xml.rels" {
            entry.1 = rels_with_internal_hyperlink;
        }
    }
    let zip = build_zip(&entries);
    let workbook = run(zip, SizeLimits::default()).unwrap();
    let images = workbook.sheets()[0].images();
    assert_eq!(images.len(), 1);
    assert_eq!(images[0].target, "xl/media/image1.png");
    assert_eq!(images[0].hyperlink, None);
}


const WORKSHEET_WITH_EXTERNAL_HYPERLINK_XML: &[u8] = br#"<worksheet><sheetData>
<row r="1"><c r="A1"><v>42</v></c></row>
</sheetData>
<hyperlinks><hyperlink ref="A1" r:id="rIdLink" tooltip="Visit example"/></hyperlinks>
</worksheet>"#;

const WORKSHEET_RELS_WITH_HYPERLINK: &[u8] = br#"<Relationships xmlns="http://schemas.openxmlformats.org/package/2006/relationships">
  <Relationship Id="rIdLink" Type="http://schemas.openxmlformats.org/officeDocument/2006/relationships/hyperlink" Target="https://example.com/" TargetMode="External"/>
</Relationships>"#;

#[test]
fn external_hyperlink_resolves_target_and_tooltip_end_to_end() {
    let zip = build_zip(&[
        ("xl/_rels/workbook.xml.rels", RELS_XML),
        ("xl/workbook.xml", WORKBOOK_XML),
        ("xl/sharedStrings.xml", SHARED_STRINGS_XML),
        ("xl/styles.xml", STYLES_XML),
        (
            "xl/worksheets/sheet1.xml",
            WORKSHEET_WITH_EXTERNAL_HYPERLINK_XML,
        ),
        (
            "xl/worksheets/_rels/sheet1.xml.rels",
            WORKSHEET_RELS_WITH_HYPERLINK,
        ),
    ]);
    let workbook = run(zip, SizeLimits::default()).unwrap();
    let sheet = &workbook.sheets()[0];
    let hyperlink = sheet.hyperlink_at(CellRef { row: 1, col: 1 }).unwrap();
    assert_eq!(hyperlink.target.as_deref(), Some("https://example.com/"));
    assert_eq!(hyperlink.location, None);
    assert_eq!(hyperlink.tooltip.as_deref(), Some("Visit example"));
}

#[test]
fn range_ref_hyperlink_attaches_independently_to_every_populated_cell() {
    let worksheet: &[u8] = br#"<worksheet><sheetData>
<row r="1"><c r="A1"><v>1</v></c><c r="B1"><v>2</v></c></row>
</sheetData>
<hyperlinks><hyperlink ref="A1:B1" r:id="rIdLink"/></hyperlinks>
</worksheet>"#;
    let zip = build_zip(&[
        ("xl/_rels/workbook.xml.rels", RELS_XML),
        ("xl/workbook.xml", WORKBOOK_XML),
        ("xl/sharedStrings.xml", SHARED_STRINGS_XML),
        ("xl/styles.xml", STYLES_XML),
        ("xl/worksheets/sheet1.xml", worksheet),
        (
            "xl/worksheets/_rels/sheet1.xml.rels",
            WORKSHEET_RELS_WITH_HYPERLINK,
        ),
    ]);
    let workbook = run(zip, SizeLimits::default()).unwrap();
    let sheet = &workbook.sheets()[0];
    for col in 1..=2 {
        assert_eq!(
            sheet
                .hyperlink_at(CellRef { row: 1, col })
                .unwrap()
                .target
                .as_deref(),
            Some("https://example.com/"),
            "col {col}"
        );
    }
}

#[test]
fn hyperlink_r_id_with_no_worksheet_rels_part_degrades_to_no_target() {
    let zip = build_zip(&[
        ("xl/_rels/workbook.xml.rels", RELS_XML),
        ("xl/workbook.xml", WORKBOOK_XML),
        ("xl/sharedStrings.xml", SHARED_STRINGS_XML),
        ("xl/styles.xml", STYLES_XML),
        (
            "xl/worksheets/sheet1.xml",
            WORKSHEET_WITH_EXTERNAL_HYPERLINK_XML,
        ),
    ]);
    let workbook = run(zip, SizeLimits::default()).unwrap();
    let hyperlink = workbook.sheets()[0]
        .hyperlink_at(CellRef { row: 1, col: 1 })
        .unwrap();
    assert_eq!(hyperlink.target, None);
    assert_eq!(hyperlink.tooltip.as_deref(), Some("Visit example"));
}

#[test]
fn malformed_worksheet_rels_xml_with_hyperlink_propagates_parse_error() {
    let malformed_rels: &[u8] =
        br#"<Relationships xmlns="http://schemas.openxmlformats.org/package/2006/relationships"><Relationship Id="rIdLink"/></Relationships>"#;
    let zip = build_zip(&[
        ("xl/_rels/workbook.xml.rels", RELS_XML),
        ("xl/workbook.xml", WORKBOOK_XML),
        ("xl/sharedStrings.xml", SHARED_STRINGS_XML),
        ("xl/styles.xml", STYLES_XML),
        (
            "xl/worksheets/sheet1.xml",
            WORKSHEET_WITH_EXTERNAL_HYPERLINK_XML,
        ),
        ("xl/worksheets/_rels/sheet1.xml.rels", malformed_rels),
    ]);
    let err = run(zip, SizeLimits::default()).unwrap_err();
    assert!(matches!(err, Error::MissingRequiredElement { .. }));
}

#[test]
fn overlapping_hyperlink_ranges_are_invalid_hyperlink_range() {
    let worksheet: &[u8] = br#"<worksheet><sheetData></sheetData>
<hyperlinks>
<hyperlink ref="A1:C3" location="Sheet1!A1"/>
<hyperlink ref="B2:D4" location="Sheet1!A1"/>
</hyperlinks>
</worksheet>"#;
    let zip = build_zip(&[
        ("xl/_rels/workbook.xml.rels", RELS_XML),
        ("xl/workbook.xml", WORKBOOK_XML),
        ("xl/sharedStrings.xml", SHARED_STRINGS_XML),
        ("xl/styles.xml", STYLES_XML),
        ("xl/worksheets/sheet1.xml", worksheet),
    ]);
    let err = run(zip, SizeLimits::default()).unwrap_err();
    assert!(matches!(err, Error::InvalidHyperlinkRange { .. }));
}

#[test]
fn location_only_hyperlink_needs_no_worksheet_rels_part() {
    let worksheet: &[u8] = br#"<worksheet><sheetData>
<row r="1"><c r="A1"><v>1</v></c></row>
</sheetData>
<hyperlinks><hyperlink ref="A1" location="'Sheet2'!A1"/></hyperlinks>
</worksheet>"#;
    let zip = build_zip(&[
        ("xl/_rels/workbook.xml.rels", RELS_XML),
        ("xl/workbook.xml", WORKBOOK_XML),
        ("xl/sharedStrings.xml", SHARED_STRINGS_XML),
        ("xl/styles.xml", STYLES_XML),
        ("xl/worksheets/sheet1.xml", worksheet),
    ]);
    let workbook = run(zip, SizeLimits::default()).unwrap();
    let hyperlink = workbook.sheets()[0]
        .hyperlink_at(CellRef { row: 1, col: 1 })
        .unwrap();
    assert_eq!(hyperlink.target, None);
    assert_eq!(hyperlink.location.as_deref(), Some("'Sheet2'!A1"));
}

#[test]
fn unresolved_hyperlink_r_id_degrades_to_no_target_rather_than_failing() {
    let rels_without_the_link_id: &[u8] = br#"<Relationships xmlns="http://schemas.openxmlformats.org/package/2006/relationships"></Relationships>"#;
    let zip = build_zip(&[
        ("xl/_rels/workbook.xml.rels", RELS_XML),
        ("xl/workbook.xml", WORKBOOK_XML),
        ("xl/sharedStrings.xml", SHARED_STRINGS_XML),
        ("xl/styles.xml", STYLES_XML),
        (
            "xl/worksheets/sheet1.xml",
            WORKSHEET_WITH_EXTERNAL_HYPERLINK_XML,
        ),
        (
            "xl/worksheets/_rels/sheet1.xml.rels",
            rels_without_the_link_id,
        ),
    ]);
    let workbook = run(zip, SizeLimits::default()).unwrap();
    let hyperlink = workbook.sheets()[0]
        .hyperlink_at(CellRef { row: 1, col: 1 })
        .unwrap();
    assert_eq!(hyperlink.target, None);
    assert_eq!(hyperlink.tooltip.as_deref(), Some("Visit example"));
}

#[test]
fn hyperlink_on_an_otherwise_fully_blank_cell_still_surfaces_in_output() {
    let worksheet: &[u8] = br#"<worksheet><sheetData>
<row r="1"><c r="A1"><v>1</v></c></row>
</sheetData>
<hyperlinks><hyperlink ref="B1" location="Sheet1!A1"/></hyperlinks>
</worksheet>"#;
    let zip = build_zip(&[
        ("xl/_rels/workbook.xml.rels", RELS_XML),
        ("xl/workbook.xml", WORKBOOK_XML),
        ("xl/sharedStrings.xml", SHARED_STRINGS_XML),
        ("xl/styles.xml", STYLES_XML),
        ("xl/worksheets/sheet1.xml", worksheet),
    ]);
    let workbook = run(zip, SizeLimits::default()).unwrap();
    let sheet = &workbook.sheets()[0];
    let b1 = CellRef { row: 1, col: 2 };
    assert!(
        sheet.get(b1).is_some(),
        "B1 must exist as a placeholder cell"
    );
    assert!(sheet.hyperlink_at(b1).is_some());
    let coords: Vec<CellRef> = sheet.iter_cells().into_iter().map(|(c, _)| c).collect();
    assert!(
        coords.contains(&b1),
        "B1 must be reachable via iter_cells/JSON output"
    );
}

#[test]
fn hyperlink_count_over_the_limit_is_too_many_hyperlinks() {
    let mut hyperlinks = String::from("<hyperlinks>");
    for row in 1..=(xlsxparser::resolve::hyperlink::MAX_HYPERLINKS_PER_SHEET as u32 + 1) {
        hyperlinks.push_str(&format!(
            r#"<hyperlink ref="A{row}" location="Sheet1!A1"/>"#
        ));
    }
    hyperlinks.push_str("</hyperlinks>");
    let worksheet =
        format!("<worksheet><sheetData></sheetData>{hyperlinks}</worksheet>").into_bytes();
    let zip = build_zip(&[
        ("xl/_rels/workbook.xml.rels", RELS_XML),
        ("xl/workbook.xml", WORKBOOK_XML),
        ("xl/sharedStrings.xml", SHARED_STRINGS_XML),
        ("xl/styles.xml", STYLES_XML),
        ("xl/worksheets/sheet1.xml", &worksheet),
    ]);
    let err = run(zip, SizeLimits::default()).unwrap_err();
    assert!(matches!(err, Error::TooManyHyperlinks { .. }));
}

/// A workbook whose one worksheet part is the given one.
fn xlsx_with_worksheet(worksheet: &[u8]) -> Vec<u8> {
    build_zip(&[
        ("xl/_rels/workbook.xml.rels", RELS_XML),
        ("xl/workbook.xml", WORKBOOK_XML),
        ("xl/sharedStrings.xml", SHARED_STRINGS_XML),
        ("xl/styles.xml", STYLES_XML),
        ("xl/worksheets/sheet1.xml", worksheet),
    ])
}

#[test]
fn what_stands_in_front_of_a_cap_is_read_before_the_cap_is_reached() {
    let limits = SizeLimits { max_entry_size: 16_384, ..SizeLimits::default() };
    let path = "xl/worksheets/sheet1.xml".to_string();
    let padded = |front: &str, back: &str| {
        let mut xml = front.to_string();
        for _ in 0..3_000 {
            xml.push_str("<row/>\u{3042}\n");
        }
        xml.push_str(back);
        xml
    };
    let bomb = |n: usize| Err::<(), Error>(Error::ZipBombDetected { limit: 16_384, actual: n as u64 });
    let cases = [
        (padded("<!DOCTYPE a><worksheet>", "</worksheet>"), Err(Error::DoctypeRejected { path: path.clone() })),
        (padded("<worksheet></workbook>", ""), Err(Error::XmlParse { path: path.clone() })),
        (padded("<worksheet><!x", ""), Err(Error::XmlParse { path: path.clone() })),
        (padded("<worksheet>&a<b/>", ""), Err(Error::XmlParse { path: path.clone() })),
        (
            padded("<worksheet><mergeCell/>", ""),
            Err(Error::MissingRequiredElement { path: path.clone(), name: "ref" }),
        ),
        (padded("<worksheet>", "</worksheet>"), bomb(24_576)),
        (padded("<worksheet>", "</workbook>"), bomb(24_576)),
        (padded("<worksheet><!--", "--></worksheet>"), bomb(24_576)),
        (padded("<worksheet><a b='", "'/></worksheet>"), bomb(24_576)),
        (padded("<worksheet><![CDATA[", "]]></worksheet>"), bomb(24_576)),
    ];
    for (xml, expected) in cases {
        assert!(xml.len() > 24_576);
        let got = run(xlsx_with_worksheet(xml.as_bytes()), limits).map(|_| ());
        assert_eq!(got, expected);
    }
}

#[test]
fn wherever_a_cap_cuts_a_part_off_the_cap_is_what_is_wrong() {
    let limits = SizeLimits { max_entry_size: 8_191 + 8_192, ..SizeLimits::default() };
    let tail = "<c r=\"A1\" t='str'><v>a&amp;b</v><!-- \u{3042} --></c><?p q?><![CDATA[x]]>";
    for shift in 0..tail.len() {
        let mut xml = "<worksheet>".to_string();
        while xml.len() < 8_192 - tail.len() {
            xml.push(' ');
        }
        for _ in 0..shift {
            xml.push(' ');
        }
        xml.push_str(tail);
        while xml.len() < 30_000 {
            xml.push_str(" <!-- -->");
        }
        xml.push_str("</worksheet>");
        assert_eq!(
            run(xlsx_with_worksheet(xml.as_bytes()), limits).map(|_| ()),
            Err(Error::ZipBombDetected { limit: 16_383, actual: 16_384 }),
            "{shift}"
        );
    }
}

/// A theme part whose color scheme is followed by very much else.
fn long_theme() -> Vec<u8> {
    let mut theme = THEME1_XML.to_vec();
    while theme.len() < 20_000 {
        theme.extend_from_slice(b"<not what it should be");
    }
    theme
}

#[test]
fn theme_is_read_only_as_far_as_its_color_scheme_goes() {
    let theme = long_theme();
    let others: [(&str, &[u8]); 4] = [
        ("xl/_rels/workbook.xml.rels", RELS_WITH_THEME),
        ("xl/workbook.xml", WORKBOOK_XML),
        ("xl/styles.xml", STYLES_WITH_THEME_COLOR_XML),
        ("xl/worksheets/sheet1.xml", WORKSHEET_WITH_STYLE_XML),
    ];
    let mut entries = others.to_vec();
    entries.push(("xl/theme/theme1.xml", &theme));
    let zip = build_zip(&entries);
    let rest: usize = DEFAULT_ROOT_RELS_XML.len() + others.iter().map(|e| e.1.len()).sum::<usize>();
    let needed = rest as u64 + 8_192;

    let within = |max_entry_size, max_total_size| {
        run(zip.clone(), SizeLimits { max_entry_size, max_total_size, ..SizeLimits::default() })
            .map(|workbook| workbook.theme().unwrap().0[4])
    };
    let accent = Rgb { r: 0x4F, g: 0x81, b: 0xBD };
    assert_eq!(within(8_192, needed), Ok(accent));
    assert_eq!(
        within(8_192, needed - 1),
        Err(Error::ZipBombDetected { limit: needed - 1, actual: needed })
    );
    assert_eq!(
        within(8_191, needed),
        Err(Error::ZipBombDetected { limit: 8_191, actual: 8_192 })
    );
}

#[test]
fn theme_with_a_wrong_checksum_is_read_as_far_as_its_color_scheme_goes() {
    let theme = long_theme();
    let mut buf = Vec::new();
    {
        let mut writer = zip::ZipWriter::new(Cursor::new(&mut buf));
        let options = zip::write::SimpleFileOptions::default()
            .compression_method(zip::CompressionMethod::Stored);
        let entries: [(&str, &[u8]); 6] = [
            (PACKAGE_RELS_PATH, DEFAULT_ROOT_RELS_XML),
            ("xl/_rels/workbook.xml.rels", RELS_WITH_THEME),
            ("xl/workbook.xml", WORKBOOK_XML),
            ("xl/styles.xml", STYLES_WITH_THEME_COLOR_XML),
            ("xl/worksheets/sheet1.xml", WORKSHEET_WITH_STYLE_XML),
            ("xl/theme/theme1.xml", &theme),
        ];
        for (name, data) in entries {
            writer.start_file(name, options).unwrap();
            writer.write_all(data).unwrap();
        }
        writer.finish().unwrap();
    }
    let at = buf.windows(9).position(|w| w == b"<not what").unwrap();
    buf[at + 1] = b'N';
    let workbook = run(buf, SizeLimits::default()).unwrap();
    assert!(workbook.theme().is_some());
}
