use xlsxparser::container::data::PartData;
use xlsxparser::parse::shared_strings::{parse_shared_strings, SharedStringTable};

fn whole(xml: &[u8]) -> PartData {
    PartData::whole(xml.to_vec())
}

fn parse(xml: &[u8]) -> SharedStringTable {
    parse_shared_strings(&whole(xml), "xl/sharedStrings.xml").unwrap()
}

#[test]
fn plain_strings_preserve_index_order() {
    let xml = br#"<sst><si><t>hello</t></si><si><t>world</t></si></sst>"#;
    let table = parse(xml);
    assert_eq!(table.len(), 2);
    assert_eq!(table.get(0).unwrap().as_str(), "hello");
    assert_eq!(table.get(1).unwrap().as_str(), "world");
}

#[test]
fn rich_text_runs_concatenate() {
    let xml =
        br#"<sst><si><r><t xml:space="preserve">hello </t></r><r><t>world</t></r></si></sst>"#;
    let table = parse(xml);
    assert_eq!(table.get(0).unwrap().as_str(), "hello world");
}

#[test]
fn rph_furigana_is_excluded() {
    let xml =
        br#"<sst><si><t>&#x5C71;&#x7530;</t><rPh sb="0" eb="2"><t>&#x3084;&#x307E;&#x3060;</t></rPh></si></sst>"#;
    let table = parse(xml);
    assert_eq!(table.get(0).unwrap().as_str(), "\u{5C71}\u{7530}");
}

#[test]
fn named_entities_are_resolved() {
    let xml = br#"<sst><si><t>Tom &amp; Jerry &lt;3&gt;</t></si></sst>"#;
    let table = parse(xml);
    assert_eq!(table.get(0).unwrap().as_str(), "Tom & Jerry <3>");
}

#[test]
fn preserve_whitespace_is_kept() {
    let xml = br#"<sst><si><t xml:space="preserve">  padded  </t></si></sst>"#;
    let table = parse(xml);
    assert_eq!(table.get(0).unwrap().as_str(), "  padded  ");
}

#[test]
fn empty_si_is_empty_string() {
    let xml = b"<sst><si/></sst>";
    let table = parse(xml);
    assert_eq!(table.len(), 1);
    assert_eq!(table.get(0).unwrap().as_str(), "");
}

#[test]
fn empty_sst_yields_empty_table() {
    let xml = br#"<sst count="0" uniqueCount="0"></sst>"#;
    let table = parse(xml);
    assert_eq!(table.len(), 0);
}

#[test]
fn get_out_of_range_returns_none() {
    let xml = b"<sst><si><t>only</t></si></sst>";
    let table = parse(xml);
    assert!(table.get(5).is_none());
}

#[test]
fn a_default_table_holds_no_strings() {
    let table = SharedStringTable::default();
    assert_eq!(table.len(), 0);
    assert!(table.get(0).is_none());
}
