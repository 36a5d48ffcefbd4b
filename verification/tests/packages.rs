use std::io::{Cursor, Write};
use std::sync::Arc;
use xlsxparser::container::sanitize::SizeLimits;
use xlsxparser::date::SerialParts;
use xlsxparser::json::{
    anchor_to_json, cell_to_json, image_to_json, style_to_json, JsonAnchor, JsonCell,
    JsonCellValue, JsonExtent, JsonFont, JsonMarker,
};
use xlsxparser::model::cell::{CellRef, CellValue, DateTimeValue};
use xlsxparser::model::range::ColWidthRange;
use xlsxparser::model::sheet::{AnchorMarker, ImageAnchor, ImageExtent, Sheet, SheetVisibility};
use xlsxparser::model::workbook::Workbook;
use xlsxparser::number::Number;
use xlsxparser::parse::drawing::{GroupContext, Placement};
use xlsxparser::pipeline::run;
use xlsxparser::Error;

fn num(s: &str) -> Number {
    Number::parse(s).unwrap()
}

fn number(s: &str) -> Option<CellValue> {
    Some(CellValue::Number(num(s)))
}

fn text(s: &str) -> Option<CellValue> {
    Some(CellValue::Text(Arc::new(s.to_string())))
}

fn at(row: u32, col: u32) -> CellRef {
    CellRef { row, col }
}

/// Takes a date serial apart: whole days, and the rest in seconds, rounded.
fn split(n: &Number) -> Option<SerialParts> {
    let serial: f64 = n.as_str().parse().unwrap();
    if !serial.is_finite() || !(0.0..=2_958_465.0).contains(&serial) {
        return None;
    }
    Some(SerialParts {
        day: serial.trunc() as i64,
        seconds: (serial.fract() * 86_400.0).round() as i64,
    })
}

/// Places a picture by applying the transform of every group around it, innermost
/// first.
fn place(groups: &Vec<GroupContext>, off: (i64, i64), ext: (i64, i64)) -> Placement {
    let (mut x, mut y) = (off.0 as f64, off.1 as f64);
    let (mut cx, mut cy) = (ext.0 as f64, ext.1 as f64);
    for g in groups.iter().rev() {
        let scale_x = g.ext_cx as f64 / g.ch_ext_cx as f64;
        let scale_y = g.ext_cy as f64 / g.ch_ext_cy as f64;
        cx *= scale_x;
        cy *= scale_y;
        x = g.off_x as f64 + (x - g.ch_off_x as f64) * scale_x;
        y = g.off_y as f64 + (y - g.ch_off_y as f64) * scale_y;
    }
    let all = [x, y, cx, cy];
    if all.iter().any(|v| !v.is_finite()) {
        return Placement::NonFinite;
    }
    Placement::At {
        dx: x.round() as i64,
        dy: y.round() as i64,
        cx: cx.round() as i64,
        cy: cy.round() as i64,
    }
}

fn parse_with_limits(bytes: Vec<u8>, limits: SizeLimits) -> Result<Workbook, Error> {
    run(bytes, limits, &split, &place)
}

fn parse(bytes: Vec<u8>) -> Result<Workbook, Error> {
    parse_with_limits(bytes, SizeLimits::default())
}

fn records(sheet: &Sheet) -> Vec<JsonCell> {
    sheet
        .iter_cells()
        .into_iter()
        .map(|(at, cell)| cell_to_json(sheet, at, cell, true))
        .collect()
}

const DEFAULT_ROOT_RELS_XML: &[u8] = br#"<?xml version="1.0" encoding="UTF-8" standalone="yes"?>
<Relationships xmlns="http://schemas.openxmlformats.org/package/2006/relationships">
  <Relationship Id="rId1" Type="http://schemas.openxmlformats.org/officeDocument/2006/relationships/officeDocument" Target="xl/workbook.xml"/>
</Relationships>"#;

/// Packs parts, and the relationships of the package itself, into an archive.
fn build_zip(entries: &[(&str, &[u8])]) -> Vec<u8> {
    let mut buf = Vec::new();
    {
        let mut writer = zip::ZipWriter::new(Cursor::new(&mut buf));
        let options = zip::write::SimpleFileOptions::default()
            .compression_method(zip::CompressionMethod::Deflated);
        writer.start_file("_rels/.rels", options).unwrap();
        writer.write_all(DEFAULT_ROOT_RELS_XML).unwrap();
        for (name, data) in entries {
            writer.start_file(*name, options).unwrap();
            writer.write_all(data).unwrap();
        }
        writer.finish().unwrap();
    }
    buf
}

fn rels_xml(relationships: &[(&str, &str, &str)]) -> String {
    let mut xml = String::from(
        "<?xml version=\"1.0\" encoding=\"UTF-8\" standalone=\"yes\"?>\n\
         <Relationships xmlns=\"http://schemas.openxmlformats.org/package/2006/relationships\">\n",
    );
    for (id, type_suffix, target) in relationships {
        xml.push_str(&format!(
            "  <Relationship Id=\"{id}\" Type=\"http://schemas.openxmlformats.org/officeDocument/2006/relationships/{type_suffix}\" Target=\"{target}\"/>\n"
        ));
    }
    xml.push_str("</Relationships>");
    xml
}

fn workbook_xml(sheets: &[(&str, &str, Option<&str>)]) -> String {
    let mut xml = String::from(
        "<?xml version=\"1.0\"?>\n\
         <workbook xmlns:r=\"http://schemas.openxmlformats.org/officeDocument/2006/relationships\">\n  <sheets>\n",
    );
    for (name, r_id, state) in sheets {
        let state_attr = match state {
            Some(s) => format!(" state=\"{s}\""),
            None => String::new(),
        };
        xml.push_str(&format!(
            "    <sheet name=\"{name}\" sheetId=\"1\" r:id=\"{r_id}\"{state_attr}/>\n"
        ));
    }
    xml.push_str("  </sheets>\n</workbook>");
    xml
}

fn worksheet_xml(rows_xml: &str, merge_cells_xml: &str) -> String {
    format!("<worksheet><sheetData>\n{rows_xml}\n</sheetData>{merge_cells_xml}</worksheet>")
}

fn shared_strings_xml(strings: &[&str]) -> String {
    let mut xml = format!(
        "<?xml version=\"1.0\" encoding=\"UTF-8\" standalone=\"yes\"?>\n\
         <sst xmlns=\"http://schemas.openxmlformats.org/spreadsheetml/2006/main\" count=\"{0}\" uniqueCount=\"{0}\">\n",
        strings.len()
    );
    for s in strings {
        xml.push_str(&format!("  <si><t>{s}</t></si>\n"));
    }
    xml.push_str("</sst>");
    xml
}

const DEFAULT_STYLES_XML: &[u8] =
    br#"<styleSheet><cellXfs><xf numFmtId="0"/></cellXfs></styleSheet>"#;

const DATE_STYLES_XML: &[u8] =
    br#"<styleSheet><cellXfs><xf numFmtId="0"/><xf numFmtId="14"/></cellXfs></styleSheet>"#;

const FONT_STYLES_XML: &[u8] = br#"<styleSheet>
<fonts count="2">
<font><sz val="11"/><name val="Calibri"/></font>
<font><b/><sz val="14"/><name val="Calibri"/></font>
</fonts>
<cellXfs><xf fontId="0"/><xf fontId="1"/></cellXfs>
</styleSheet>"#;

/// A package with one worksheet and one stylesheet, and `extra` parts.
fn one_sheet(worksheet: &str, styles: &[u8], extra: &[(&str, &[u8])]) -> Vec<u8> {
    let rels = rels_xml(&[
        ("rId1", "worksheet", "worksheets/sheet1.xml"),
        ("rId2", "styles", "styles.xml"),
    ]);
    let workbook = workbook_xml(&[("Sheet1", "rId1", None)]);
    let mut entries: Vec<(&str, &[u8])> = vec![
        ("xl/_rels/workbook.xml.rels", rels.as_bytes()),
        ("xl/workbook.xml", workbook.as_bytes()),
        ("xl/styles.xml", styles),
        ("xl/worksheets/sheet1.xml", worksheet.as_bytes()),
    ];
    entries.extend_from_slice(extra);
    build_zip(&entries)
}

/// The same with a table of shared strings.
fn sheet_with_strings(rows: &str, strings_xml: &str) -> Vec<u8> {
    let rels = rels_xml(&[
        ("rId1", "worksheet", "worksheets/sheet1.xml"),
        ("rId2", "styles", "styles.xml"),
        ("rId3", "sharedStrings", "sharedStrings.xml"),
    ]);
    build_zip(&[
        ("xl/_rels/workbook.xml.rels", rels.as_bytes()),
        ("xl/workbook.xml", workbook_xml(&[("Sheet1", "rId1", None)]).as_bytes()),
        ("xl/styles.xml", DEFAULT_STYLES_XML),
        ("xl/sharedStrings.xml", strings_xml.as_bytes()),
        ("xl/worksheets/sheet1.xml", worksheet_xml(rows, "").as_bytes()),
    ])
}

/// A package whose one worksheet has a drawing.
fn sheet_with_drawing(rows: &str, drawing: &[u8], drawing_rels: &[u8]) -> Vec<u8> {
    let worksheet = worksheet_xml(rows, "").replace(
        "</worksheet>",
        r#"<drawing r:id="rIdDrawing"/></worksheet>"#,
    );
    let worksheet_rels = rels_xml(&[("rIdDrawing", "drawing", "../drawings/drawing1.xml")]);
    one_sheet(
        &worksheet,
        DEFAULT_STYLES_XML,
        &[
            ("xl/worksheets/_rels/sheet1.xml.rels", worksheet_rels.as_bytes()),
            ("xl/drawings/drawing1.xml", drawing),
            ("xl/drawings/_rels/drawing1.xml.rels", drawing_rels),
            ("xl/media/image1.png", b"\x89PNG\r\n\x1a\n"),
            ("xl/media/image2.png", b"\x89PNG\r\n\x1a\n"),
        ],
    )
}

fn column_letters(mut n: u32) -> String {
    let mut buf = Vec::new();
    while n > 0 {
        let rem = ((n - 1) % 26) as u8;
        buf.push(b'A' + rem);
        n = (n - 1) / 26;
    }
    buf.reverse();
    String::from_utf8(buf).unwrap()
}

#[test]
fn wrap_text_resolves_per_cell_and_serializes_nested_under_style() {
    let rows = r#"<row r="1">
  <c r="A1" s="1"><v>1</v></c>
  <c r="B1" s="0"><v>2</v></c>
</row>"#;
    let styles: &[u8] = br#"<styleSheet><cellXfs><xf numFmtId="0"/><xf numFmtId="0"><alignment wrapText="1"/></xf></cellXfs></styleSheet>"#;
    let workbook = parse(one_sheet(&worksheet_xml(rows, ""), styles, &[])).unwrap();
    let sheet = &workbook.sheets()[0];

    assert!(sheet.get(at(1, 1)).unwrap().style.as_ref().unwrap().wrap_text);
    assert!(!sheet.get(at(1, 2)).unwrap().style.as_ref().unwrap().wrap_text);

    let cells = records(sheet);
    let a1 = cells.iter().find(|c| c.col == 1).unwrap();
    let b1 = cells.iter().find(|c| c.col == 2).unwrap();
    assert!(a1.style.as_ref().unwrap().wrap_text);
    assert!(!b1.style.as_ref().unwrap().wrap_text);
}

#[test]
fn font_size_and_bold_resolve_per_cell_and_serialize_nested_under_style() {
    let rows = r#"<row r="1">
  <c r="A1" s="0"><v>1</v></c>
  <c r="B1" s="1"><v>2</v></c>
</row>"#;
    let workbook = parse(one_sheet(&worksheet_xml(rows, ""), FONT_STYLES_XML, &[])).unwrap();
    let sheet = &workbook.sheets()[0];

    let a1 = sheet.get(at(1, 1)).unwrap().style.as_ref().unwrap();
    assert_eq!(a1.font.size_pt, num("11"));
    assert!(!a1.font.bold);
    let b1 = sheet.get(at(1, 2)).unwrap().style.as_ref().unwrap();
    assert_eq!(b1.font.size_pt, num("14"));
    assert!(b1.font.bold);

    let a1 = style_to_json(a1);
    assert_eq!(a1.font, JsonFont { size_pt: num("11"), bold: false });
    assert!(!a1.wrap_text);
    let b1 = style_to_json(b1);
    assert_eq!(b1.font, JsonFont { size_pt: num("14"), bold: true });
    assert!(!b1.wrap_text);
}

#[test]
fn column_widths_resolve_per_column_and_serialize_as_a_sheet_level_array() {
    let worksheet = r#"<worksheet>
<sheetFormatPr defaultColWidth="9.1" defaultRowHeight="15"/>
<cols>
<col min="1" max="3" width="12.5" customWidth="1"/>
<col min="5" max="5" width="30"/>
</cols>
<sheetData>
<row r="1">
  <c r="A1"><v>1</v></c>
  <c r="E1"><v>2</v></c>
</row>
</sheetData>
</worksheet>"#;
    let workbook = parse(one_sheet(worksheet, DEFAULT_STYLES_XML, &[])).unwrap();
    let sheet = &workbook.sheets()[0];

    assert_eq!(sheet.column_width(1), Some(&num("12.5")));
    assert_eq!(sheet.column_width(3), Some(&num("12.5")));
    assert_eq!(sheet.column_width(4), Some(&num("9.1")));
    assert_eq!(sheet.column_width(5), Some(&num("30")));
    assert_eq!(sheet.column_width(6), Some(&num("9.1")));

    assert_eq!(sheet.default_col_width(), Some(&num("9.1")));
    assert_eq!(
        sheet.col_width_ranges(),
        &vec![
            ColWidthRange { min: 1, max: 3, width: num("12.5") },
            ColWidthRange { min: 5, max: 5, width: num("30") },
        ]
    );
}

#[test]
fn basic_types_maps_each_cell_to_the_right_json_type() {
    let rows = r#"<row r="1">
  <c r="A1" t="str"><v>日本語Text</v></c>
  <c r="B1"><v>42</v></c>
  <c r="C1"><v>19.99</v></c>
  <c r="D1" s="1"><v>45000</v></c>
  <c r="E1" t="b"><v>1</v></c>
  <c r="F1" t="b"><v>0</v></c>
  <c r="G1" t="e"><v>#N/A</v></c>
</row>"#;
    let workbook = parse(one_sheet(&worksheet_xml(rows, ""), DATE_STYLES_XML, &[])).unwrap();
    let sheet = &workbook.sheets()[0];

    assert_eq!(sheet.get(at(1, 1)).unwrap().value, text("日本語Text"));
    assert_eq!(sheet.get(at(1, 2)).unwrap().value, number("42"));
    assert_eq!(sheet.get(at(1, 3)).unwrap().value, number("19.99"));
    assert_eq!(
        sheet.get(at(1, 4)).unwrap().value,
        Some(CellValue::DateTime(DateTimeValue {
            year: 2023,
            month: 3,
            day: 15,
            hour: 0,
            minute: 0,
            second: 0,
        }))
    );
    assert_eq!(sheet.get(at(1, 5)).unwrap().value, Some(CellValue::Boolean(true)));
    assert_eq!(sheet.get(at(1, 6)).unwrap().value, Some(CellValue::Boolean(false)));
    assert_eq!(
        sheet.get(at(1, 7)).unwrap().value,
        Some(CellValue::Error("#N/A".to_string()))
    );
    assert_eq!(sheet.iter_cells().len(), 7);

    let mut types: Vec<&str> = records(sheet)
        .iter()
        .map(|c| match c.value {
            JsonCellValue::Number(_) => "number",
            JsonCellValue::Text(_) => "text",
            JsonCellValue::Boolean(_) => "boolean",
            JsonCellValue::DateTime(_) => "dateTime",
            JsonCellValue::Error(_) => "error",
            JsonCellValue::Empty => "empty",
        })
        .collect();
    types.sort_unstable();
    assert_eq!(
        types,
        vec!["boolean", "boolean", "dateTime", "error", "number", "number", "text"]
    );
}

#[test]
fn shared_strings_resolves_repeated_and_distinct_indices() {
    let rows = r#"<row r="1">
  <c r="A1" t="s"><v>0</v></c>
  <c r="B1" t="s"><v>1</v></c>
  <c r="C1" t="s"><v>0</v></c>
</row>"#;
    let workbook =
        parse(sheet_with_strings(rows, &shared_strings_xml(&["Apple", "Banana"]))).unwrap();
    let sheet = &workbook.sheets()[0];

    assert_eq!(sheet.get(at(1, 1)).unwrap().value, text("Apple"));
    assert_eq!(sheet.get(at(1, 2)).unwrap().value, text("Banana"));
    assert_eq!(sheet.get(at(1, 3)).unwrap().value, text("Apple"));
}

#[test]
fn inline_strings_are_extracted_without_a_shared_string_table() {
    let rows = r#"<row r="1">
  <c r="A1" t="inlineStr"><is><t>Inline One</t></is></c>
  <c r="B1" t="inlineStr"><is><t>Inline Two</t></is></c>
</row>"#;
    let workbook = parse(one_sheet(&worksheet_xml(rows, ""), DEFAULT_STYLES_XML, &[])).unwrap();
    let sheet = &workbook.sheets()[0];

    assert_eq!(sheet.get(at(1, 1)).unwrap().value, text("Inline One"));
    assert_eq!(sheet.get(at(1, 2)).unwrap().value, text("Inline Two"));
}

#[test]
fn houganshi_merged_region_resolves_every_coordinate_to_the_anchor() {
    let rows = r#"<row r="1"><c r="A1" t="str"><v>houganshi</v></c></row>"#;
    let merge_cells = r#"<mergeCells count="1"><mergeCell ref="A1:C3"/></mergeCells>"#;
    let worksheet = worksheet_xml(rows, merge_cells);
    let workbook = parse(one_sheet(&worksheet, DEFAULT_STYLES_XML, &[])).unwrap();
    let sheet = &workbook.sheets()[0];

    assert_eq!(sheet.get(at(1, 1)).unwrap().value, text("houganshi"));
    for row in 1..=3 {
        for col in 1..=3 {
            assert_eq!(
                sheet.get(at(row, col)),
                sheet.get(at(1, 1)),
                "coordinate ({row}, {col}) did not resolve to the merge anchor"
            );
        }
    }

    let cells = records(sheet);
    assert_eq!(cells.len(), 1);
    assert_eq!(cells[0].row_span, 3);
    assert_eq!(cells[0].col_span, 3);
}

#[test]
fn multi_sheet_states_are_all_enumerated_including_hidden_and_empty() {
    let filled = worksheet_xml(r#"<row r="1"><c r="A1"><v>1</v></c></row>"#, "");
    let rels = rels_xml(&[
        ("rId1", "worksheet", "worksheets/sheet1.xml"),
        ("rId2", "worksheet", "worksheets/sheet2.xml"),
        ("rId3", "worksheet", "worksheets/sheet3.xml"),
        ("rId4", "worksheet", "worksheets/sheet4.xml"),
        ("rId5", "styles", "styles.xml"),
    ]);
    let book = workbook_xml(&[
        ("Visible", "rId1", None),
        ("Hidden", "rId2", Some("hidden")),
        ("VeryHidden", "rId3", Some("veryHidden")),
        ("Empty", "rId4", None),
    ]);
    let workbook = parse(build_zip(&[
        ("xl/_rels/workbook.xml.rels", rels.as_bytes()),
        ("xl/workbook.xml", book.as_bytes()),
        ("xl/styles.xml", DEFAULT_STYLES_XML),
        ("xl/worksheets/sheet1.xml", filled.as_bytes()),
        ("xl/worksheets/sheet2.xml", filled.as_bytes()),
        ("xl/worksheets/sheet3.xml", filled.as_bytes()),
        ("xl/worksheets/sheet4.xml", worksheet_xml("", "").as_bytes()),
    ]))
    .unwrap();
    let sheets = workbook.sheets();

    assert_eq!(sheets.len(), 4);
    let by_name = |name: &str| sheets.iter().find(|s| s.name == name).unwrap();
    assert_eq!(by_name("Visible").visibility, SheetVisibility::Visible);
    assert_eq!(by_name("Hidden").visibility, SheetVisibility::Hidden);
    assert_eq!(by_name("VeryHidden").visibility, SheetVisibility::VeryHidden);
    assert_eq!(by_name("Empty").visibility, SheetVisibility::Visible);
    assert_eq!(by_name("Empty").iter_cells().len(), 0);
}

#[test]
fn embedded_image_resolves_anchor_embed_and_hyperlink() {
    let rows = r#"<row r="1"><c r="A1" t="str"><v>logo</v></c></row>"#;
    let drawing = br#"<xdr:wsDr xmlns:xdr="http://schemas.openxmlformats.org/drawingml/2006/spreadsheetDrawing" xmlns:a="http://schemas.openxmlformats.org/drawingml/2006/main" xmlns:r="http://schemas.openxmlformats.org/officeDocument/2006/relationships">
  <xdr:twoCellAnchor>
    <xdr:from><xdr:col>1</xdr:col><xdr:colOff>10000</xdr:colOff><xdr:row>1</xdr:row><xdr:rowOff>20000</xdr:rowOff></xdr:from>
    <xdr:to><xdr:col>4</xdr:col><xdr:colOff>0</xdr:colOff><xdr:row>8</xdr:row><xdr:rowOff>0</xdr:rowOff></xdr:to>
    <xdr:pic>
      <xdr:nvPicPr>
        <xdr:cNvPr id="2" name="Picture 1"><a:hlinkClick r:id="rIdHyperlink"/></xdr:cNvPr>
        <xdr:cNvPicPr/>
      </xdr:nvPicPr>
      <xdr:blipFill><a:blip r:embed="rIdEmbed"/></xdr:blipFill>
    </xdr:pic>
    <xdr:clientData/>
  </xdr:twoCellAnchor>
</xdr:wsDr>"#;
    let drawing_rels = br#"<Relationships xmlns="http://schemas.openxmlformats.org/package/2006/relationships">
  <Relationship Id="rIdEmbed" Type="http://schemas.openxmlformats.org/officeDocument/2006/relationships/image" Target="../media/image1.png"/>
  <Relationship Id="rIdHyperlink" Type="http://schemas.openxmlformats.org/officeDocument/2006/relationships/hyperlink" Target="https://example.com/sample-image" TargetMode="External"/>
</Relationships>"#;
    let workbook = parse(sheet_with_drawing(rows, drawing, drawing_rels)).unwrap();
    let images = workbook.sheets()[0].images();
    assert_eq!(images.len(), 1);
    let image = &images[0];

    assert_eq!(image.target, "xl/media/image1.png");
    assert_eq!(
        image.hyperlink.as_deref(),
        Some("https://example.com/sample-image")
    );
    match image.anchor {
        ImageAnchor::TwoCell { from, to } => {
            assert_eq!(from.cell, at(2, 2));
            assert_eq!(from.col_off, 10000);
            assert_eq!(from.row_off, 20000);
            assert_eq!(to.cell, at(9, 5));
            assert_eq!(to.col_off, 0);
            assert_eq!(to.row_off, 0);
        }
        ImageAnchor::OneCell { .. } => panic!("expected a TwoCell anchor"),
    }

    let record = image_to_json(image);
    match record.anchor {
        JsonAnchor::TwoCell { from, .. } => {
            assert_eq!(from.row, 2);
            assert_eq!(from.col, 2);
        }
        JsonAnchor::OneCell { .. } => panic!("expected a TwoCell anchor"),
    }
    assert_eq!(record.target, "xl/media/image1.png");
    assert_eq!(
        record.hyperlink.as_deref(),
        Some("https://example.com/sample-image")
    );
}

#[test]
fn embedded_image_one_cell_resolves_a_single_cell_confined_anchor() {
    let rows = r#"<row r="1"><c r="A1" t="str"><v>icon</v></c></row>"#;
    let drawing = br#"<xdr:wsDr xmlns:xdr="http://schemas.openxmlformats.org/drawingml/2006/spreadsheetDrawing" xmlns:a="http://schemas.openxmlformats.org/drawingml/2006/main" xmlns:r="http://schemas.openxmlformats.org/officeDocument/2006/relationships">
  <xdr:oneCellAnchor>
    <xdr:from><xdr:col>2</xdr:col><xdr:colOff>5000</xdr:colOff><xdr:row>4</xdr:row><xdr:rowOff>5000</xdr:rowOff></xdr:from>
    <xdr:ext cx="400000" cy="150000"/>
    <xdr:pic>
      <xdr:nvPicPr>
        <xdr:cNvPr id="2" name="Picture 1"/>
        <xdr:cNvPicPr/>
      </xdr:nvPicPr>
      <xdr:blipFill><a:blip r:embed="rIdEmbed"/></xdr:blipFill>
    </xdr:pic>
    <xdr:clientData/>
  </xdr:oneCellAnchor>
</xdr:wsDr>"#;
    let drawing_rels = br#"<Relationships xmlns="http://schemas.openxmlformats.org/package/2006/relationships">
  <Relationship Id="rIdEmbed" Type="http://schemas.openxmlformats.org/officeDocument/2006/relationships/image" Target="../media/image1.png"/>
</Relationships>"#;
    let workbook = parse(sheet_with_drawing(rows, drawing, drawing_rels)).unwrap();
    let images = workbook.sheets()[0].images();
    assert_eq!(images.len(), 1);
    let image = &images[0];

    assert_eq!(image.target, "xl/media/image1.png");
    assert_eq!(image.hyperlink, None);
    assert_eq!(
        image.anchor,
        ImageAnchor::OneCell {
            from: AnchorMarker {
                cell: at(5, 3),
                col_off: 5000,
                row_off: 5000,
            },
            ext: ImageExtent {
                cx: 400_000,
                cy: 150_000,
            },
        }
    );

    let record = image_to_json(image);
    assert_eq!(
        record.anchor,
        JsonAnchor::OneCell {
            from: JsonMarker {
                row: 5,
                col: 3,
                col_off: 5000,
                row_off: 5000,
            },
            ext: JsonExtent {
                cx: 400_000,
                cy: 150_000,
            },
        }
    );
    assert_eq!(record.hyperlink, None);
}

#[test]
fn grouped_images_resolve_relative_to_group_with_per_pic_hyperlink_scoping() {
    let rows = r#"<row r="1"><c r="A1" t="str"><v>logos</v></c></row>"#;
    let drawing = br#"<xdr:wsDr xmlns:xdr="http://schemas.openxmlformats.org/drawingml/2006/spreadsheetDrawing" xmlns:a="http://schemas.openxmlformats.org/drawingml/2006/main" xmlns:r="http://schemas.openxmlformats.org/officeDocument/2006/relationships">
  <xdr:twoCellAnchor editAs="absolute">
    <xdr:from><xdr:col>1</xdr:col><xdr:colOff>267120</xdr:colOff><xdr:row>4</xdr:row><xdr:rowOff>69840</xdr:rowOff></xdr:from>
    <xdr:to><xdr:col>3</xdr:col><xdr:colOff>441720</xdr:colOff><xdr:row>7</xdr:row><xdr:rowOff>122040</xdr:rowOff></xdr:to>
    <xdr:grpSp>
      <xdr:nvGrpSpPr><xdr:cNvPr id="1" name=""/><xdr:cNvGrpSpPr/></xdr:nvGrpSpPr>
      <xdr:grpSpPr>
        <a:xfrm>
          <a:off x="1080000" y="720000"/><a:ext cx="1800000" cy="540000"/>
          <a:chOff x="1080000" y="720000"/><a:chExt cx="1800000" cy="540000"/>
        </a:xfrm>
      </xdr:grpSpPr>
      <xdr:pic>
        <xdr:nvPicPr><xdr:cNvPr id="2" name="Picture 1"/><xdr:cNvPicPr/></xdr:nvPicPr>
        <xdr:blipFill><a:blip r:embed="rIdEmbed1"/></xdr:blipFill>
        <xdr:spPr><a:xfrm><a:off x="1080000" y="720000"/><a:ext cx="720000" cy="360000"/></a:xfrm></xdr:spPr>
      </xdr:pic>
      <xdr:pic>
        <xdr:nvPicPr><xdr:cNvPr id="3" name="Picture 2"><a:hlinkClick r:id="rIdHyperlink"/></xdr:cNvPr><xdr:cNvPicPr/></xdr:nvPicPr>
        <xdr:blipFill><a:blip r:embed="rIdEmbed2"/></xdr:blipFill>
        <xdr:spPr><a:xfrm><a:off x="2160000" y="720000"/><a:ext cx="720000" cy="540000"/></a:xfrm></xdr:spPr>
      </xdr:pic>
    </xdr:grpSp>
    <xdr:clientData/>
  </xdr:twoCellAnchor>
</xdr:wsDr>"#;
    let drawing_rels = br#"<Relationships xmlns="http://schemas.openxmlformats.org/package/2006/relationships">
  <Relationship Id="rIdEmbed1" Type="http://schemas.openxmlformats.org/officeDocument/2006/relationships/image" Target="../media/image1.png"/>
  <Relationship Id="rIdEmbed2" Type="http://schemas.openxmlformats.org/officeDocument/2006/relationships/image" Target="../media/image2.png"/>
  <Relationship Id="rIdHyperlink" Type="http://schemas.openxmlformats.org/officeDocument/2006/relationships/hyperlink" Target="https://example.com/second-logo" TargetMode="External"/>
</Relationships>"#;
    let workbook = parse(sheet_with_drawing(rows, drawing, drawing_rels)).unwrap();
    let images = workbook.sheets()[0].images();
    assert_eq!(images.len(), 2);

    assert_eq!(images[0].target, "xl/media/image1.png");
    assert_eq!(images[0].hyperlink, None);
    assert_eq!(
        images[0].anchor,
        ImageAnchor::OneCell {
            from: AnchorMarker {
                cell: at(5, 2),
                col_off: 267_120,
                row_off: 69_840,
            },
            ext: ImageExtent {
                cx: 720_000,
                cy: 360_000,
            },
        }
    );

    assert_eq!(images[1].target, "xl/media/image2.png");
    assert_eq!(
        images[1].hyperlink.as_deref(),
        Some("https://example.com/second-logo")
    );
    assert_eq!(
        images[1].anchor,
        ImageAnchor::OneCell {
            from: AnchorMarker {
                cell: at(5, 2),
                col_off: 267_120 + 1_080_000,
                row_off: 69_840,
            },
            ext: ImageExtent {
                cx: 720_000,
                cy: 540_000,
            },
        }
    );

    assert!(matches!(anchor_to_json(&images[0].anchor), JsonAnchor::OneCell { .. }));
    assert_eq!(image_to_json(&images[0]).hyperlink, None);
    let second = image_to_json(&images[1]);
    assert_eq!(second.target, "xl/media/image2.png");
    assert_eq!(
        second.hyperlink.as_deref(),
        Some("https://example.com/second-logo")
    );
}

#[test]
fn extreme_sparse_coordinates_register_only_the_populated_cells() {
    let rows = r#"<row r="1"><c r="A1"><v>1</v></c></row>
<row r="1048576"><c r="XFD1048576"><v>2</v></c></row>"#;
    let workbook = parse(one_sheet(&worksheet_xml(rows, ""), DEFAULT_STYLES_XML, &[])).unwrap();
    let sheet = &workbook.sheets()[0];

    assert_eq!(sheet.get(at(1, 1)).unwrap().value, number("1"));
    assert_eq!(sheet.get(at(1_048_576, 16_384)).unwrap().value, number("2"));
    assert_eq!(sheet.iter_cells().len(), 2);
}

const MEDIUM_DENSITY_ROWS: u32 = 500;
const MEDIUM_DENSITY_COLS: u32 = 200;

#[test]
fn medium_density_registers_only_the_scattered_populated_cells() {
    let mut rows = String::new();
    for row in 1..=MEDIUM_DENSITY_ROWS {
        rows.push_str(&format!("<row r=\"{row}\">"));
        for col in 1..=MEDIUM_DENSITY_COLS {
            if (row + col) % 10 == 0 {
                let value = row * 1000 + col;
                let letters = column_letters(col);
                rows.push_str(&format!("<c r=\"{letters}{row}\"><v>{value}</v></c>"));
            }
        }
        rows.push_str("</row>");
    }
    let workbook = parse(one_sheet(&worksheet_xml(&rows, ""), DEFAULT_STYLES_XML, &[])).unwrap();
    let sheet = &workbook.sheets()[0];

    let expected_count = (1..=MEDIUM_DENSITY_ROWS)
        .flat_map(|row| (1..=MEDIUM_DENSITY_COLS).map(move |col| (row, col)))
        .filter(|(row, col)| (row + col) % 10 == 0)
        .count();
    assert_eq!(sheet.iter_cells().len(), expected_count);

    assert_eq!(sheet.get(at(1, 9)).unwrap().value, number("1009"));
    assert!(sheet.get(at(1, 8)).is_none());
    assert!(sheet.get(at(1, 10)).is_none());

    let last_row = MEDIUM_DENSITY_ROWS;
    let last_col = (1..=MEDIUM_DENSITY_COLS)
        .rev()
        .find(|col| (last_row + col) % 10 == 0)
        .unwrap();
    assert_eq!(
        sheet.get(at(last_row, last_col)).unwrap().value,
        number(&format!("{}", last_row * 1000 + last_col))
    );
}

const DENSE_MERGE_GRID_SIDE: u32 = 20;
const DENSE_MERGE_GRID_BLOCK: u32 = 3;

#[test]
fn dense_merged_grid_resolves_every_block_to_its_own_anchor() {
    let side = DENSE_MERGE_GRID_SIDE;
    let block = DENSE_MERGE_GRID_BLOCK;
    let mut rows = String::new();
    let mut merges = String::new();
    for block_row in 0..side {
        let row = block_row * block + 1;
        rows.push_str(&format!("<row r=\"{row}\">"));
        for block_col in 0..side {
            let col = block_col * block + 1;
            let value = block_row * side + block_col;
            let first = format!("{}{row}", column_letters(col));
            let last = format!("{}{}", column_letters(col + block - 1), row + block - 1);
            rows.push_str(&format!("<c r=\"{first}\"><v>{value}</v></c>"));
            merges.push_str(&format!("<mergeCell ref=\"{first}:{last}\"/>"));
        }
        rows.push_str("</row>");
    }
    let merge_cells = format!("<mergeCells>{merges}</mergeCells>");
    let worksheet = worksheet_xml(&rows, &merge_cells);
    let workbook = parse(one_sheet(&worksheet, DEFAULT_STYLES_XML, &[])).unwrap();
    let sheet = &workbook.sheets()[0];

    for block_row in 0..side {
        for block_col in 0..side {
            let anchor_row = block_row * block + 1;
            let anchor_col = block_col * block + 1;
            let anchor = sheet.get(at(anchor_row, anchor_col)).unwrap();
            assert_eq!(
                anchor.value,
                number(&format!("{}", block_row * side + block_col)),
                "block ({block_row}, {block_col}) anchor has the wrong value"
            );
            for dr in 0..block {
                for dc in 0..block {
                    assert_eq!(
                        sheet.get(at(anchor_row + dr, anchor_col + dc)),
                        Some(anchor),
                        "({block_row},{block_col}) offset ({dr},{dc})"
                    );
                }
            }
        }
    }

    let cells = records(sheet);
    assert_eq!(cells.len(), (side * side) as usize);
    for cell in cells {
        assert_eq!(cell.row_span, block);
        assert_eq!(cell.col_span, block);
    }
}

#[test]
fn corrupted_xml_is_reported_as_xml_parse_error() {
    let broken = r#"<worksheet><sheetData><row r="1"><c r="A1"><v>1</v></c><c r="B1"#;
    let err = parse(one_sheet(broken, DEFAULT_STYLES_XML, &[])).unwrap_err();
    assert!(
        matches!(err, Error::XmlParse { .. }),
        "expected Error::XmlParse, got {err:?}"
    );
}

#[test]
fn corrupted_workbook_xml_is_reported_as_xml_parse_error() {
    let broken: &[u8] = br#"<?xml version="1.0"?>
<workbook xmlns:r="http://schemas.openxmlformats.org/officeDocument/2006/relationships">
  <sheets>
    <sheet name="Sheet1" sheetId="1" r:id="rId1"#;
    let rels = rels_xml(&[
        ("rId1", "worksheet", "worksheets/sheet1.xml"),
        ("rId2", "styles", "styles.xml"),
    ]);
    let err = parse(build_zip(&[
        ("xl/_rels/workbook.xml.rels", rels.as_bytes()),
        ("xl/workbook.xml", broken),
        ("xl/styles.xml", DEFAULT_STYLES_XML),
        ("xl/worksheets/sheet1.xml", worksheet_xml(ONE_CELL, "").as_bytes()),
    ]))
    .unwrap_err();
    assert!(
        matches!(err, Error::XmlParse { .. }),
        "expected Error::XmlParse, got {err:?}"
    );
}

const ONE_CELL: &str = r#"<row r="1"><c r="A1"><v>1</v></c></row>"#;

#[test]
fn corrupted_styles_xml_is_reported_as_xml_parse_error() {
    let broken: &[u8] = br#"<styleSheet><cellXfs><xf numFmtId="0"#;
    let err = parse(one_sheet(&worksheet_xml(ONE_CELL, ""), broken, &[])).unwrap_err();
    assert!(
        matches!(err, Error::XmlParse { .. }),
        "expected Error::XmlParse, got {err:?}"
    );
}

#[test]
fn corrupted_shared_strings_xml_is_reported_as_missing_closing_tag() {
    let broken = r#"<?xml version="1.0"?>
<sst xmlns="http://schemas.openxmlformats.org/spreadsheetml/2006/main"><si><t>unterminated"#;
    let err = parse(sheet_with_strings(ONE_CELL, broken)).unwrap_err();
    assert!(
        matches!(
            err,
            Error::MissingRequiredElement {
                name: "si/is closing tag",
                ..
            }
        ),
        "expected Error::MissingRequiredElement, got {err:?}"
    );
}

#[test]
fn missing_relations_is_reported_as_dangling_relationship() {
    let err = parse(build_zip(&[
        (
            "xl/_rels/workbook.xml.rels",
            rels_xml(&[("rId2", "styles", "styles.xml")]).as_bytes(),
        ),
        ("xl/workbook.xml", workbook_xml(&[("Sheet1", "rId1", None)]).as_bytes()),
        ("xl/styles.xml", DEFAULT_STYLES_XML),
        ("xl/worksheets/sheet1.xml", worksheet_xml(ONE_CELL, "").as_bytes()),
    ]))
    .unwrap_err();
    assert!(
        matches!(err, Error::DanglingRelationship { .. }),
        "expected Error::DanglingRelationship, got {err:?}"
    );
}

#[test]
fn out_of_bounds_sst_index_is_reported_not_panicked() {
    let rows = r#"<row r="1"><c r="A1" t="s"><v>99999</v></c></row>"#;
    let err =
        parse(sheet_with_strings(rows, &shared_strings_xml(&["only one entry"]))).unwrap_err();
    assert!(
        matches!(
            err,
            Error::SharedStringIndexOutOfBounds {
                index: 99999,
                len: 1
            }
        ),
        "expected Error::SharedStringIndexOutOfBounds, got {err:?}"
    );
}

#[test]
fn invalid_merge_ref_is_reported_as_invalid_merged_range() {
    let merge_cells = r#"<mergeCells count="1"><mergeCell ref="C3:A1"/></mergeCells>"#;
    let worksheet = worksheet_xml(ONE_CELL, merge_cells);
    let err = parse(one_sheet(&worksheet, DEFAULT_STYLES_XML, &[])).unwrap_err();
    assert!(
        matches!(err, Error::InvalidMergedRange { .. }),
        "expected Error::InvalidMergedRange, got {err:?}"
    );
}

#[test]
fn overlapping_col_widths_is_reported_as_invalid_column_width_range() {
    let worksheet = r#"<worksheet>
<cols>
<col min="1" max="5" width="10"/>
<col min="3" max="8" width="20"/>
</cols>
<sheetData><row r="1"><c r="A1"><v>1</v></c></row></sheetData>
</worksheet>"#;
    let err = parse(one_sheet(worksheet, DEFAULT_STYLES_XML, &[])).unwrap_err();
    assert!(
        matches!(err, Error::InvalidColumnWidthRange { .. }),
        "expected Error::InvalidColumnWidthRange, got {err:?}"
    );
}

#[test]
fn reversed_col_width_range_is_reported_as_invalid_column_width_range() {
    let worksheet = r#"<worksheet>
<cols>
<col min="10" max="5" width="10"/>
</cols>
<sheetData><row r="1"><c r="A1"><v>1</v></c></row></sheetData>
</worksheet>"#;
    let err = parse(one_sheet(worksheet, DEFAULT_STYLES_XML, &[])).unwrap_err();
    assert!(
        matches!(err, Error::InvalidColumnWidthRange { .. }),
        "expected Error::InvalidColumnWidthRange, got {err:?}"
    );
}

#[test]
fn massive_dense_accounting_parses_every_one_of_300_000_cells() {
    let mut rows = String::new();
    for row in 1..=10_000u32 {
        rows.push_str(&format!("<row r=\"{row}\">"));
        for col in 1..=30u32 {
            let letters = column_letters(col);
            let value = row as f64 * 100.0 + col as f64;
            rows.push_str(&format!("<c r=\"{letters}{row}\"><v>{value}</v></c>"));
        }
        rows.push_str("</row>\n");
    }
    let workbook = parse(one_sheet(&worksheet_xml(&rows, ""), DEFAULT_STYLES_XML, &[])).unwrap();
    let sheet = &workbook.sheets()[0];

    assert_eq!(sheet.iter_cells().len(), 10_000 * 30);
    assert_eq!(sheet.get(at(1, 1)).unwrap().value, number("101"));
    assert_eq!(sheet.get(at(10_000, 30)).unwrap().value, number("1000030"));
}

#[test]
fn thousand_sheets_all_parse_without_exhausting_resources() {
    let names: Vec<(String, String, String)> = (1..=1000)
        .map(|i| {
            (
                format!("rId{i}"),
                format!("worksheets/sheet{i}.xml"),
                format!("Sheet{i}"),
            )
        })
        .collect();
    let parts: Vec<(String, String)> = (1..=1000)
        .map(|i| {
            (
                format!("xl/worksheets/sheet{i}.xml"),
                worksheet_xml(&format!("<row r=\"1\"><c r=\"A1\"><v>{i}</v></c></row>"), ""),
            )
        })
        .collect();
    let mut relationships: Vec<(&str, &str, &str)> = names
        .iter()
        .map(|(id, target, _)| (id.as_str(), "worksheet", target.as_str()))
        .collect();
    relationships.push(("rIdStyles", "styles", "styles.xml"));
    let sheets: Vec<(&str, &str, Option<&str>)> = names
        .iter()
        .map(|(id, _, name)| (name.as_str(), id.as_str(), None))
        .collect();
    let rels = rels_xml(&relationships);
    let book = workbook_xml(&sheets);
    let mut entries: Vec<(&str, &[u8])> = parts
        .iter()
        .map(|(name, data)| (name.as_str(), data.as_bytes()))
        .collect();
    entries.push(("xl/_rels/workbook.xml.rels", rels.as_bytes()));
    entries.push(("xl/workbook.xml", book.as_bytes()));
    entries.push(("xl/styles.xml", DEFAULT_STYLES_XML));
    let workbook = parse(build_zip(&entries)).unwrap();
    let sheets = workbook.sheets();

    assert_eq!(sheets.len(), 1000);
    assert_eq!(sheets[0].name, "Sheet1");
    assert_eq!(sheets[999].name, "Sheet1000");
    assert_eq!(sheets[499].get(at(1, 1)).unwrap().value, number("500"));
}

#[test]
fn massive_sst_resolves_indices_across_a_50_000_entry_table() {
    let strings: Vec<String> = (0..50_000).map(|i| format!("unique-string-{i}")).collect();
    let strings: Vec<&str> = strings.iter().map(String::as_str).collect();
    let rows = "<row r=\"1\"><c r=\"A1\" t=\"s\"><v>0</v></c><c r=\"B1\" t=\"s\"><v>25000</v></c><c r=\"C1\" t=\"s\"><v>49999</v></c></row>";
    let workbook = parse(sheet_with_strings(rows, &shared_strings_xml(&strings))).unwrap();
    let sheet = &workbook.sheets()[0];

    assert_eq!(sheet.get(at(1, 1)).unwrap().value, text("unique-string-0"));
    assert_eq!(sheet.get(at(1, 2)).unwrap().value, text("unique-string-25000"));
    assert_eq!(sheet.get(at(1, 3)).unwrap().value, text("unique-string-49999"));
}

#[test]
fn sparse_merge_bounding_box_does_not_amplify_json_generation_cost() {
    let mut merges = String::new();
    for i in 0..19_999usize {
        let col = (i % 16_384) + 1;
        let row = 2 + (i / 16_384);
        let a1 = format!("{}{row}", column_letters(col as u32));
        merges.push_str(&format!("<mergeCell ref=\"{a1}:{a1}\"/>"));
    }
    merges.push_str("<mergeCell ref=\"XFD1048576:XFD1048576\"/>");
    let merge_cells = format!("<mergeCells count=\"20000\">{merges}</mergeCells>");
    let mut rows = String::new();
    for i in 0..300_000usize {
        let col = (i % 16_384) + 1;
        let row = 500_000 + (i / 16_384);
        rows.push_str(&format!(
            "<row r=\"{row}\"><c r=\"{}{row}\" s=\"0\"><v>1</v></c></row>\n",
            column_letters(col as u32)
        ));
    }
    let worksheet = worksheet_xml(&rows, &merge_cells);
    let workbook = parse(one_sheet(&worksheet, DEFAULT_STYLES_XML, &[])).unwrap();
    let sheet = &workbook.sheets()[0];

    // The data cells, and the first cell of every merged region.
    assert_eq!(sheet.iter_cells().len(), 320_000);
    assert_eq!(records(sheet).len(), 320_000);
    assert_eq!(sheet.max_row, 1_048_576);
}

#[test]
fn zip_bomb_is_capped_before_full_decompression() {
    let mut sheet = String::with_capacity(20_000_048);
    sheet.push_str("<worksheet><sheetData><row r=\"1\"><c r=\"A1\" t=\"str\"><v>");
    sheet.push_str(&"A".repeat(20_000_000));
    sheet.push_str("</v></c></row></sheetData></worksheet>");
    let tiny_cap = SizeLimits {
        max_entry_size: 1_000_000,
        ..SizeLimits::default()
    };
    let err = parse_with_limits(one_sheet(&sheet, DEFAULT_STYLES_XML, &[]), tiny_cap).unwrap_err();
    assert!(
        matches!(err, Error::ZipBombDetected { .. }),
        "expected Error::ZipBombDetected, got {err:?}"
    );
}

fn too_many_cells(n_cells: u32) -> Vec<u8> {
    let mut rows = String::new();
    for col in 1..=n_cells {
        rows.push_str(&format!(
            "<row r=\"{col}\"><c r=\"A{col}\"><v>1</v></c></row>\n"
        ));
    }
    one_sheet(&worksheet_xml(&rows, ""), DEFAULT_STYLES_XML, &[])
}

#[test]
fn too_many_cells_is_rejected_before_exceeding_the_cap() {
    let tiny_cap = SizeLimits {
        max_cells_per_sheet: 3,
        ..SizeLimits::default()
    };
    let err = parse_with_limits(too_many_cells(4), tiny_cap).unwrap_err();
    assert!(
        matches!(
            err,
            Error::TooManyCells {
                count: 4,
                limit: 3,
                ..
            }
        ),
        "expected Error::TooManyCells {{ count: 4, limit: 3, .. }}, got {err:?}"
    );
    parse_with_limits(too_many_cells(3), tiny_cap).unwrap();
}

#[test]
fn too_many_self_closing_styled_cells_are_rejected_alike() {
    let tiny_cap = SizeLimits {
        max_cells_per_sheet: 3,
        ..SizeLimits::default()
    };
    let rows = |n: u32| {
        (1..=n)
            .map(|i| format!("<row r=\"{i}\"><c r=\"A{i}\" s=\"0\"/></row>\n"))
            .collect::<String>()
    };
    let bytes = one_sheet(&worksheet_xml(&rows(4), ""), DEFAULT_STYLES_XML, &[]);
    let err = parse_with_limits(bytes, tiny_cap).unwrap_err();
    assert!(matches!(err, Error::TooManyCells { count: 4, limit: 3, .. }));
    let bytes = one_sheet(&worksheet_xml(&rows(3), ""), DEFAULT_STYLES_XML, &[]);
    parse_with_limits(bytes, tiny_cap).unwrap();
}

#[test]
fn zip_slip_entry_name_rejects_the_whole_archive() {
    let extra: &[(&str, &[u8])] = &[("../../../../../../../tmp/evil.txt", b"out of place")];
    let bytes = one_sheet(&worksheet_xml(ONE_CELL, ""), DEFAULT_STYLES_XML, extra);
    let err = parse(bytes).unwrap_err();
    assert!(
        matches!(err, Error::ZipSlipDetected { .. }),
        "expected Error::ZipSlipDetected, got {err:?}"
    );
}

#[test]
fn xxe_doctype_is_rejected_without_entity_expansion() {
    let with_doctype: &[u8] = br#"<?xml version="1.0"?>
<!DOCTYPE workbook [<!ENTITY xxe SYSTEM "file:///etc/passwd">]>
<workbook xmlns:r="http://schemas.openxmlformats.org/officeDocument/2006/relationships">
  <sheets>
    <sheet name="Sheet1" sheetId="1" r:id="rId1"/>
  </sheets>
</workbook>"#;
    let rels = rels_xml(&[
        ("rId1", "worksheet", "worksheets/sheet1.xml"),
        ("rId2", "styles", "styles.xml"),
    ]);
    let err = parse(build_zip(&[
        ("xl/_rels/workbook.xml.rels", rels.as_bytes()),
        ("xl/workbook.xml", with_doctype),
        ("xl/styles.xml", DEFAULT_STYLES_XML),
        ("xl/worksheets/sheet1.xml", worksheet_xml(ONE_CELL, "").as_bytes()),
    ]))
    .unwrap_err();
    assert!(
        matches!(err, Error::DoctypeRejected { .. }),
        "expected Error::DoctypeRejected, got {err:?}"
    );
}

const MINIMAL_RELS_XML: &[u8] = br#"<Relationships xmlns="http://schemas.openxmlformats.org/package/2006/relationships">
  <Relationship Id="rId1" Type="http://schemas.openxmlformats.org/officeDocument/2006/relationships/worksheet" Target="worksheets/sheet1.xml"/>
  <Relationship Id="rId3" Type="http://schemas.openxmlformats.org/officeDocument/2006/relationships/styles" Target="styles.xml"/>
</Relationships>"#;

const MINIMAL_WORKBOOK_XML: &[u8] = br#"<?xml version="1.0"?>
<workbook xmlns:r="http://schemas.openxmlformats.org/officeDocument/2006/relationships">
  <sheets>
    <sheet name="Sheet1" sheetId="1" r:id="rId1"/>
  </sheets>
</workbook>"#;

fn minimal_xlsx() -> Vec<u8> {
    build_zip(&[
        ("xl/_rels/workbook.xml.rels", MINIMAL_RELS_XML),
        ("xl/workbook.xml", MINIMAL_WORKBOOK_XML),
        ("xl/styles.xml", DEFAULT_STYLES_XML),
        (
            "xl/worksheets/sheet1.xml",
            br#"<worksheet><sheetData><row r="1"><c r="A1"><v>42</v></c></row></sheetData></worksheet>"#,
        ),
    ])
}

#[test]
fn parse_workbook_reader_reads_valid_bytes() {
    let workbook = parse(minimal_xlsx()).unwrap();
    assert_eq!(workbook.sheets().len(), 1);
}

#[test]
fn caller_supplied_size_limits_are_honored_by_the_public_api() {
    parse(minimal_xlsx()).unwrap();

    let tiny_limits = SizeLimits {
        max_entry_size: 1,
        ..SizeLimits::default()
    };
    let err = parse_with_limits(minimal_xlsx(), tiny_limits).unwrap_err();
    assert!(matches!(err, Error::ZipBombDetected { .. }));
}

#[test]
fn corrupt_xlsx_errors_propagate_unchanged() {
    let err = parse(b"not a zip file".to_vec()).unwrap_err();
    assert!(matches!(err, Error::InvalidPackage(_)));

    let missing_rels = build_zip(&[("xl/workbook.xml", MINIMAL_WORKBOOK_XML)]);
    let err = parse(missing_rels).unwrap_err();
    assert!(matches!(err, Error::MissingRelationshipPart(_)));
}

#[test]
fn a_document_type_is_rejected_in_every_part_that_is_read_whole() {
    let rels = rels_xml(&[
        ("rId1", "worksheet", "worksheets/sheet1.xml"),
        ("rId2", "styles", "styles.xml"),
        ("rId3", "sharedStrings", "sharedStrings.xml"),
    ]);
    let parts = [
        ("xl/_rels/workbook.xml.rels", rels),
        ("xl/workbook.xml", workbook_xml(&[("Sheet1", "rId1", None)])),
        ("xl/styles.xml", String::from_utf8(DEFAULT_STYLES_XML.to_vec()).unwrap()),
        ("xl/sharedStrings.xml", shared_strings_xml(&["a"])),
        (
            "xl/worksheets/sheet1.xml",
            r#"<worksheet><sheetData/><drawing r:id="rIdDrawing"/></worksheet>"#.to_string(),
        ),
        (
            "xl/worksheets/_rels/sheet1.xml.rels",
            rels_xml(&[("rIdDrawing", "drawing", "../drawings/drawing1.xml")]),
        ),
        ("xl/drawings/drawing1.xml", "<xdr:wsDr/>".to_string()),
    ];
    let mut entries: Vec<(&str, &[u8])> = parts.iter().map(|(n, x)| (*n, x.as_bytes())).collect();
    entries.push(("xl/drawings/_rels/drawing1.xml.rels", b"<Relationships/>"));
    parse(build_zip(&entries)).unwrap();
    for (i, (name, xml)) in parts.iter().enumerate() {
        let bare = xml.find("?>").map_or(xml.as_str(), |at| &xml[at + 2..]);
        let with_type = format!("<!DOCTYPE x [<!ENTITY e \"v\">]>{bare}");
        let mut changed = entries.clone();
        changed[i].1 = with_type.as_bytes();
        match parse(build_zip(&changed)) {
            Err(Error::DoctypeRejected { path }) => assert_eq!(path, *name),
            other => panic!("{name}: {other:?}"),
        }
    }
}

#[test]
fn a_hyperlink_may_begin_at_a_cell_that_a_merged_region_covers() {
    let rows = r#"<row r="1"><c r="A1"><v>1</v></c><c r="B1"><v>2</v></c></row>"#;
    let tail = r#"<mergeCells><mergeCell ref="A1:B2"/></mergeCells><hyperlinks><hyperlink ref="B2" location="Sheet1!A1"/></hyperlinks>"#;
    let worksheet = worksheet_xml(rows, tail);
    let workbook = parse(one_sheet(&worksheet, DEFAULT_STYLES_XML, &[])).unwrap();
    let sheet = &workbook.sheets()[0];

    let coords: Vec<CellRef> = sheet.iter_cells().into_iter().map(|(r, _)| r).collect();
    assert_eq!(coords, [at(1, 1), at(2, 2)]);
    assert!(sheet.hyperlink_at(at(2, 2)).is_some());
    assert_eq!(sheet.get(at(2, 2)), sheet.get(at(1, 1)));
    assert_eq!(sheet.get(at(1, 2)).unwrap().value, number("1"));
}

#[test]
fn an_entry_with_damaged_data_is_an_error_of_its_part() {
    let mut buf = Vec::new();
    {
        let mut writer = zip::ZipWriter::new(Cursor::new(&mut buf));
        let options = zip::write::SimpleFileOptions::default()
            .compression_method(zip::CompressionMethod::Stored);
        let rels = rels_xml(&[
            ("rId1", "worksheet", "worksheets/sheet1.xml"),
            ("rId2", "styles", "styles.xml"),
        ]);
        let entries: [(&str, &[u8]); 5] = [
            ("_rels/.rels", DEFAULT_ROOT_RELS_XML),
            ("xl/_rels/workbook.xml.rels", rels.as_bytes()),
            ("xl/workbook.xml", MINIMAL_WORKBOOK_XML),
            ("xl/styles.xml", DEFAULT_STYLES_XML),
            (
                "xl/worksheets/sheet1.xml",
                br#"<worksheet><sheetData><row r="1"><c r="A1"><v>31415</v></c></row></sheetData></worksheet>"#,
            ),
        ];
        for (name, data) in entries {
            writer.start_file(name, options).unwrap();
            writer.write_all(data).unwrap();
        }
        writer.finish().unwrap();
    }
    assert_eq!(
        parse(buf.clone()).unwrap().sheets()[0].get(at(1, 1)).unwrap().value,
        number("31415")
    );

    let i = buf.windows(5).position(|w| w == b"31415").unwrap();
    buf[i] = b'9';
    match parse(buf.clone()) {
        Err(Error::XmlParse { path }) => assert_eq!(path, "xl/worksheets/sheet1.xml"),
        other => panic!("{other:?}"),
    }
    let tiny_cap = SizeLimits {
        max_entry_size: 80,
        ..SizeLimits::default()
    };
    assert!(matches!(
        parse_with_limits(buf, tiny_cap),
        Err(Error::ZipBombDetected { limit: 80, actual }) if actual == DEFAULT_ROOT_RELS_XML.len() as u64
    ));
}
