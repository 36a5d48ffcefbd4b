use xlsxparser::container::data::PartData;
use xlsxparser::model::sheet::SheetVisibility;
use xlsxparser::parse::workbook::{parse_visibility, parse_workbook_xml};
use xlsxparser::Error;

fn whole(xml: &[u8]) -> PartData {
    PartData::whole(xml.to_vec())
}

#[test]
fn parses_multiple_sheets_preserving_order() {
    let xml = br#"<?xml version="1.0"?>
<workbook xmlns:r="http://schemas.openxmlformats.org/officeDocument/2006/relationships">
  <sheets>
    <sheet name="Sheet1" sheetId="1" r:id="rId1"/>
    <sheet name="Sheet2" sheetId="2" r:id="rId2" state="hidden"/>
  </sheets>
</workbook>"#;

    let parsed = parse_workbook_xml(&whole(&xml[..]), "xl/workbook.xml").unwrap();
    assert_eq!(parsed.sheets.len(), 2);
    assert_eq!(parsed.sheets[0].name, "Sheet1");
    assert_eq!(parsed.sheets[0].r_id, "rId1");
    assert_eq!(parsed.sheets[0].visibility, SheetVisibility::Visible);
    assert_eq!(parsed.sheets[1].name, "Sheet2");
    assert_eq!(parsed.sheets[1].visibility, SheetVisibility::Hidden);
    assert!(!parsed.date1904);
}

#[test]
fn workbook_pr_date1904_true_is_read() {
    let xml = br#"<workbook><workbookPr date1904="1"/><sheets><sheet name="Sheet1" r:id="rId1"/></sheets></workbook>"#;
    let parsed = parse_workbook_xml(&whole(&xml[..]), "xl/workbook.xml").unwrap();
    assert!(parsed.date1904);
}

#[test]
fn workbook_pr_date1904_false_form_and_absent_workbook_pr_are_false() {
    let explicit_false = br#"<workbook><workbookPr date1904="0"/><sheets><sheet name="Sheet1" r:id="rId1"/></sheets></workbook>"#;
    assert!(
        !parse_workbook_xml(&whole(&explicit_false[..]), "xl/workbook.xml")
            .unwrap()
            .date1904
    );

    let no_workbook_pr =
        br#"<workbook><sheets><sheet name="Sheet1" r:id="rId1"/></sheets></workbook>"#;
    assert!(
        !parse_workbook_xml(&whole(&no_workbook_pr[..]), "xl/workbook.xml")
            .unwrap()
            .date1904
    );
}

#[test]
fn workbook_pr_date1904_true_form_word_is_read() {
    let xml = br#"<workbook><workbookPr date1904="true"/><sheets><sheet name="Sheet1" r:id="rId1"/></sheets></workbook>"#;
    let parsed = parse_workbook_xml(&whole(&xml[..]), "xl/workbook.xml").unwrap();
    assert!(parsed.date1904);
}

#[test]
fn absent_state_is_visible() {
    assert_eq!(parse_visibility(None), SheetVisibility::Visible);
}

#[test]
fn state_hidden_and_very_hidden() {
    assert_eq!(parse_visibility(Some("hidden")), SheetVisibility::Hidden);
    assert_eq!(
        parse_visibility(Some("veryHidden")),
        SheetVisibility::VeryHidden
    );
}

#[test]
fn unrecognized_state_falls_back_to_visible() {
    assert_eq!(
        parse_visibility(Some("somethingFuture")),
        SheetVisibility::Visible
    );
}

#[test]
fn sheet_missing_name_is_an_error() {
    let xml = br#"<workbook><sheets><sheet r:id="rId1"/></sheets></workbook>"#;
    let err = parse_workbook_xml(&whole(&xml[..]), "xl/workbook.xml").unwrap_err();
    assert!(matches!(
        err,
        Error::MissingRequiredElement { name: "name", .. }
    ));
}

#[test]
fn sheet_missing_r_id_is_an_error() {
    let xml = br#"<workbook><sheets><sheet name="Sheet1"/></sheets></workbook>"#;
    let err = parse_workbook_xml(&whole(&xml[..]), "xl/workbook.xml").unwrap_err();
    assert!(matches!(
        err,
        Error::MissingRequiredElement { name: "r:id", .. }
    ));
}

#[test]
fn missing_sheets_element_is_an_error() {
    let xml = b"<workbook></workbook>";
    let err = parse_workbook_xml(&whole(&xml[..]), "xl/workbook.xml").unwrap_err();
    assert!(matches!(
        err,
        Error::MissingRequiredElement { name: "sheets", .. }
    ));
}

#[test]
fn empty_sheets_element_produces_empty_vec() {
    let xml = b"<workbook><sheets></sheets></workbook>";
    let parsed = parse_workbook_xml(&whole(&xml[..]), "xl/workbook.xml").unwrap();
    assert!(parsed.sheets.is_empty());
}

#[test]
fn self_closing_empty_sheets_element_produces_empty_vec() {
    let xml = b"<workbook><sheets/></workbook>";
    let parsed = parse_workbook_xml(&whole(&xml[..]), "xl/workbook.xml").unwrap();
    assert!(parsed.sheets.is_empty());
}
