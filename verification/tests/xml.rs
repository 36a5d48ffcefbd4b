use xlsxparser::container::data::PartData;
use xlsxparser::parse::rich_text::{concat_rich_text, read_leaf_text};
use xlsxparser::parse::xml::{check_event, optional_attr, required_attr, XmlEvent, XmlSource, XmlTag};
use xlsxparser::Error;

fn whole(xml: &[u8]) -> PartData {
    PartData::whole(xml.to_vec())
}

/// Reads up to and past the start tag of the given name.
fn source_after<'a>(part: &'a PartData, names: &[&str]) -> XmlSource<'a> {
    let mut source = XmlSource::new(part);
    loop {
        match source.next() {
            XmlEvent::Start(tag) if names.contains(&tag.name.as_str()) => return source,
            XmlEvent::Eof => panic!("no start tag found"),
            _ => {}
        }
    }
}

fn parse_si_body_result(xml: &[u8]) -> Result<String, Error> {
    let part = whole(xml);
    let mut source = source_after(&part, &["si", "is"]);
    concat_rich_text(&mut source, "xl/sharedStrings.xml")
}

fn parse_si_body(xml: &[u8]) -> String {
    parse_si_body_result(xml).unwrap()
}

fn parse_leaf_text_result(xml: &[u8]) -> Result<String, Error> {
    let part = whole(xml);
    let mut source = source_after(&part, &["v"]);
    let mut leaf = String::new();
    loop {
        if read_leaf_text(&mut leaf, &source.next(), "xl/worksheets/sheet1.xml")? {
            return Ok(leaf);
        }
    }
}

fn first_tag(xml: &[u8]) -> XmlTag {
    match XmlSource::new(&whole(xml)).next() {
        XmlEvent::Start(tag) => tag,
        other => panic!("expected a start tag, got {other:?}"),
    }
}

#[test]
fn create_secure_reader_disables_text_trimming() {
    let part = whole(b"<root>  padded  </root>");
    let mut source = source_after(&part, &["root"]);
    assert_eq!(source.next(), XmlEvent::Text(Some("  padded  ".to_string())));
}

#[test]
fn required_attr_returns_value_when_present() {
    let tag = first_tag(br#"<c r="A1" t="s"></c>"#);
    assert_eq!(required_attr(&tag, "sheet1.xml", "r").unwrap(), "A1");
    assert_eq!(required_attr(&tag, "sheet1.xml", "t").unwrap(), "s");
}

#[test]
fn required_attr_errors_when_absent() {
    let tag = first_tag(br#"<c r="A1"></c>"#);
    let err = required_attr(&tag, "sheet1.xml", "t").unwrap_err();
    assert!(matches!(
        err,
        Error::MissingRequiredElement { name: "t", .. }
    ));
}

#[test]
fn attribute_values_are_normalized_and_their_entities_resolved() {
    let tag = first_tag(b"<c a=\"x &amp; y\" b='1\t2'></c>");
    assert_eq!(optional_attr(&tag, "p", "a").unwrap(), Some("x & y".to_string()));
    assert_eq!(optional_attr(&tag, "p", "b").unwrap(), Some("1 2".to_string()));
    assert_eq!(optional_attr(&tag, "p", "c").unwrap(), None);
}

#[test]
fn a_malformed_attribute_is_an_xml_error_for_what_follows_it() {
    let tag = first_tag(b"<c a=\"1\" b=2 c=\"3\"></c>");
    assert_eq!(optional_attr(&tag, "p", "a").unwrap(), Some("1".to_string()));
    assert_eq!(
        optional_attr(&tag, "p", "c"),
        Err(Error::XmlParse { path: "p".to_string() })
    );
}

#[test]
fn prefixes_are_dropped_from_element_names_only() {
    let tag = first_tag(br#"<x:c x:r="A1"></x:c>"#);
    assert_eq!(tag.name, "c");
    assert_eq!(optional_attr(&tag, "p", "r").unwrap(), None);
    assert_eq!(optional_attr(&tag, "p", "x:r").unwrap(), Some("A1".to_string()));
}

#[test]
fn concat_rich_text_single_bare_t() {
    let xml = b"<si><t>hello</t></si>";
    assert_eq!(parse_si_body(xml), "hello");
}

#[test]
fn concat_rich_text_multiple_runs() {
    let xml = br#"<si><r><t xml:space="preserve">hello </t></r><r><t>world</t></r></si>"#;
    assert_eq!(parse_si_body(xml), "hello world");
}

#[test]
fn concat_rich_text_excludes_rpr_and_rph() {
    let xml = b"<si><r><rPr><b/></rPr><t>bold</t></r><rPh><t>phonetic</t></rPh></si>";
    assert_eq!(parse_si_body(xml), "bold");
}

#[test]
fn concat_rich_text_ignores_whitespace_between_sibling_tags_in_pretty_printed_xml() {
    let xml = b"<si>\n  <r>\n    <rPr>\n      <b/>\n    </rPr>\n    <t>NN</t>\n  </r>\n</si>";
    assert_eq!(parse_si_body(xml), "NN");
}

#[test]
fn concat_rich_text_trims_whitespace_unless_xml_space_preserve() {
    let untagged = b"<si><t>  trimmed value  </t></si>";
    assert_eq!(parse_si_body(untagged), "trimmed value");

    let preserved = br#"<si><t xml:space="preserve">  preserved value  </t></si>"#;
    assert_eq!(parse_si_body(preserved), "  preserved value  ");

    let whitespace_only = b"<si><t> \t\n</t></si>";
    assert_eq!(parse_si_body(whitespace_only), "");
}

#[test]
fn concat_rich_text_trims_each_run_independently() {
    let xml = br#"<si><r><t xml:space="preserve">  a  </t></r><r><t>  b  </t></r></si>"#;
    assert_eq!(parse_si_body(xml), "  a  b");
}

#[test]
fn concat_rich_text_restores_x000d_escape() {
    let xml = b"<si><t>ABC_x000D_\nDEF</t></si>";
    assert_eq!(parse_si_body(xml), "ABC\r\nDEF");
}

#[test]
fn concat_rich_text_x000d_escape_followed_by_raw_crlf_source_line_ending_is_not_doubled() {
    let xml = b"<si><t>ABC_x000D_\r\nDEF</t></si>";
    assert_eq!(parse_si_body(xml), "ABC\r\nDEF");
}

#[test]
fn concat_rich_text_normalizes_raw_crlf_and_lone_cr_to_lf() {
    let crlf = b"<si><t xml:space=\"preserve\">a\r\nb</t></si>";
    assert_eq!(parse_si_body(crlf), "a\nb");

    let lone_cr = b"<si><t xml:space=\"preserve\">a\rb</t></si>";
    assert_eq!(parse_si_body(lone_cr), "a\nb");
}

#[test]
fn concat_rich_text_does_not_normalize_an_explicit_cr_character_reference() {
    let xml = b"<si><t xml:space=\"preserve\">a&#13;b</t></si>";
    assert_eq!(parse_si_body(xml), "a\rb");
}

#[test]
fn concat_rich_text_reads_cdata_content() {
    let xml = b"<si><t><![CDATA[Hello CDATA]]></t></si>";
    assert_eq!(parse_si_body(xml), "Hello CDATA");
}

#[test]
fn concat_rich_text_invalid_utf8_in_plain_text_is_xml_parse_error() {
    let mut xml = b"<si><t>".to_vec();
    xml.push(0xFF);
    xml.extend_from_slice(b"</t></si>");
    let err = parse_si_body_result(&xml).unwrap_err();
    assert!(matches!(err, Error::XmlParse { .. }));
}

#[test]
fn concat_rich_text_invalid_utf8_in_cdata_is_xml_parse_error() {
    let mut xml = b"<si><t><![CDATA[".to_vec();
    xml.push(0xFF); // not valid UTF-8 on its own
    xml.extend_from_slice(b"]]></t></si>");
    let err = parse_si_body_result(&xml).unwrap_err();
    assert!(matches!(err, Error::XmlParse { .. }));
}

#[test]
fn concat_rich_text_eof_before_closing_tag_is_missing_required_element() {
    let xml = b"<si><t>unterminated";
    let err = parse_si_body_result(xml).unwrap_err();
    assert!(matches!(
        err,
        Error::MissingRequiredElement {
            name: "si/is closing tag",
            ..
        }
    ));
}

#[test]
fn read_leaf_text_resolves_a_general_ref_entity() {
    let text = parse_leaf_text_result(b"<v>4&#38;2</v>").unwrap();
    assert_eq!(text, "4&2");
}

#[test]
fn read_leaf_text_eof_before_closing_tag_is_missing_required_element() {
    let err = parse_leaf_text_result(b"<v>unterminated").unwrap_err();
    assert!(matches!(
        err,
        Error::MissingRequiredElement {
            name: "closing tag",
            ..
        }
    ));
}

#[test]
fn read_leaf_text_ignores_a_comment_and_still_captures_surrounding_text() {
    let text = parse_leaf_text_result(b"<v>4<!-- note -->2</v>").unwrap();
    assert_eq!(text, "42");
}

#[test]
fn the_five_predefined_entities_and_no_other_are_resolved() {
    let text = parse_leaf_text_result(b"<v>&lt;&gt;&amp;&apos;&quot;</v>").unwrap();
    assert_eq!(text, "<>&'\"");
    let err = parse_leaf_text_result(b"<v>&nbsp;</v>").unwrap_err();
    assert_eq!(
        err,
        Error::XmlParse { path: "xl/worksheets/sheet1.xml".to_string() }
    );
}

#[test]
fn read_event_rejects_doctype_and_stops_reading() {
    let xml = br#"<!DOCTYPE foo [ <!ENTITY xxe SYSTEM "file:///etc/passwd"> ]><root/>"#;
    let part = whole(xml);
    let mut source = XmlSource::new(&part);
    let err = check_event(&source.next(), "xl/sharedStrings.xml").unwrap_err();
    assert!(matches!(err, Error::DoctypeRejected { .. }));
}

#[test]
fn read_event_passes_through_legitimate_xml_without_false_positives() {
    let xml = br#"<?xml version="1.0"?><sst><si><t>ok</t></si></sst>"#;
    let part = whole(xml);
    let mut source = XmlSource::new(&part);
    loop {
        let event = source.next();
        check_event(&event, "xl/sharedStrings.xml").unwrap();
        if event == XmlEvent::Eof {
            break;
        }
    }
}

#[test]
fn read_event_converts_syntax_error_via_convert_xml_error() {
    let xml = b"<root><unclosed></root>";
    let part = whole(xml);
    let mut source = XmlSource::new(&part);
    let mut last_err = None;
    loop {
        let event = source.next();
        match check_event(&event, "sheet1.xml") {
            Ok(()) if event == XmlEvent::Eof => break,
            Ok(()) => continue,
            Err(err) => {
                last_err = Some(err);
                break;
            }
        }
    }
    assert!(matches!(last_err, Some(Error::XmlParse { .. })));
}
