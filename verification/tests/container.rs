use std::io::{Cursor, Write};
use xlsxparser::container::archive::ZipContainer;
use xlsxparser::container::data::{PartData, PartEnd};
use xlsxparser::container::sanitize::{BoundedReader, LimitExceeded, ReadFault};
use xlsxparser::parse::xml::{check_event, XmlEvent, XmlSource};
use xlsxparser::Error;

fn failure(bytes: Vec<u8>) -> Error {
    match ZipContainer::open_reader(bytes) {
        Ok(_) => panic!("expected a failure"),
        Err(e) => e,
    }
}

fn build_zip(entries: &[(&str, &[u8])]) -> Vec<u8> {
    let mut buf = Vec::new();
    {
        let mut writer = zip::ZipWriter::new(Cursor::new(&mut buf));
        let options = zip::write::SimpleFileOptions::default()
            .compression_method(zip::CompressionMethod::Deflated);
        for (name, data) in entries {
            writer.start_file(*name, options).unwrap();
            writer.write_all(data).unwrap();
        }
        writer.finish().unwrap();
    }
    buf
}

#[test]
fn open_reader_succeeds_for_valid_xlsx_shaped_zip() {
    let bytes = build_zip(&[
        ("[Content_Types].xml", b"<Types/>"),
        ("xl/workbook.xml", b"<workbook/>"),
    ]);
    let container = ZipContainer::open_reader(bytes).unwrap();
    let mut names = container.entry_names();
    names.sort_unstable();
    assert_eq!(names, vec!["[Content_Types].xml", "xl/workbook.xml"]);
}

#[test]
fn open_reader_rejects_corrupt_zip_bytes() {
    let err = failure(b"not a zip file".to_vec());
    assert!(matches!(err, Error::InvalidPackage(_)));
}

#[test]
fn open_reader_rejects_archive_with_invalid_entry_name() {
    let bytes = build_zip(&[("../evil", b"payload")]);
    let err = failure(bytes);
    assert!(matches!(err, Error::ZipSlipDetected { .. }));
}

#[test]
fn get_entry_returns_content_for_existing_name() {
    let bytes = build_zip(&[("xl/workbook.xml", b"<workbook/>")]);
    let mut container = ZipContainer::open_reader(bytes).unwrap();

    let mut out = Vec::new();
    container
        .get_entry("xl/workbook.xml")
        .unwrap()
        .unwrap()
        .read_to_end(&mut out)
        .unwrap();
    assert_eq!(out, b"<workbook/>");
}

#[test]
fn get_entry_returns_none_for_missing_name() {
    let bytes = build_zip(&[("xl/workbook.xml", b"<workbook/>")]);
    let mut container = ZipContainer::open_reader(bytes).unwrap();

    assert!(container.get_entry("xl/missing.xml").unwrap().is_none());
}

#[test]
fn get_entry_rejects_malformed_name_even_if_absent() {
    let bytes = build_zip(&[("xl/workbook.xml", b"<workbook/>")]);
    let mut container = ZipContainer::open_reader(bytes).unwrap();

    let result = container.get_entry("../etc/passwd");
    assert!(matches!(result, Err(Error::ZipSlipDetected { .. })));
}

#[test]
fn get_entry_enforces_per_entry_size_limit() {
    let bytes = build_zip(&[("xl/workbook.xml", &[0u8; 100])]);
    let mut container = ZipContainer::open_reader(bytes).unwrap();
    container = container.with_max_entry_size(10);

    let mut reader = container.get_entry("xl/workbook.xml").unwrap().unwrap();
    let mut out = Vec::new();
    assert!(reader.read_to_end(&mut out).is_err());
}

#[test]
fn total_read_accumulates_and_enforces_cumulative_limit() {
    let bytes = build_zip(&[("xl/a.xml", &[0u8; 10]), ("xl/b.xml", &[0u8; 10])]);
    let mut container = ZipContainer::open_reader(bytes).unwrap();
    container = container.with_max_total_size(15);

    let mut out = Vec::new();
    container
        .get_entry("xl/a.xml")
        .unwrap()
        .unwrap()
        .read_to_end(&mut out)
        .unwrap();
    assert_eq!(container.total_read(), 10);

    let mut reader = container.get_entry("xl/b.xml").unwrap().unwrap();
    let mut out2 = Vec::new();
    assert!(reader.read_to_end(&mut out2).is_err());
}

fn fetched(bytes: Vec<u8>, name: &str, entry: u64, total: u64) -> (PartData, u64) {
    let mut container = ZipContainer::open_reader(bytes)
        .unwrap()
        .with_max_entry_size(entry)
        .with_max_total_size(total);
    let part = container.fetch_part(name).unwrap().unwrap();
    (part, container.total_read())
}

#[test]
fn convert_xml_error_maps_limit_exceeded_to_zip_bomb_detected() {
    let data = [0u8; 11];
    let mut cumulative = 0u64;
    let mut bounded = BoundedReader::new(&data[..], 10, &mut cumulative, 1000);
    let mut out = Vec::new();
    let e = match bounded.read_to_end(&mut out) {
        Err(ReadFault::Limit(e)) => e,
        other => panic!("expected a cap, got {other:?}"),
    };
    assert_eq!(
        check_event(&XmlEvent::OverCap(e), "xl/worksheets/sheet1.xml"),
        Err(Error::ZipBombDetected { limit: 10, actual: 11 })
    );
}

#[test]
fn read_event_converts_bounded_reader_limit_via_convert_xml_error() {
    let bytes = build_zip(&[("sheet1.xml", b"<root>this is too much data</root>")]);
    let (part, _) = fetched(bytes, "sheet1.xml", 5, 1000);
    let mut source = XmlSource::new(&part);
    let err = loop {
        let event = source.next();
        if event == XmlEvent::Eof {
            panic!("expected an error before the end");
        }
        if let Err(err) = check_event(&event, "sheet1.xml") {
            break err;
        }
    };
    assert!(matches!(err, Error::ZipBombDetected { limit: 5, .. }));
}

#[test]
fn parts_come_whole_and_are_counted() {
    let bytes = build_zip(&[("xl/a.xml", b"first"), ("xl/b.xml", b"second part")]);
    let mut container = ZipContainer::open_reader(bytes).unwrap();
    let whole = |b: &[u8]| Ok(Some(PartData::whole(b.to_vec())));
    assert_eq!(container.fetch_part("xl/a.xml"), whole(b"first"));
    assert_eq!(container.fetch_part("xl/c.xml"), Ok(None));
    assert_eq!(container.fetch_part("xl/b.xml"), whole(b"second part"));
    assert_eq!(container.total_read(), 16);
    assert_eq!(container.has_entry("xl/a.xml"), Ok(true));
    assert_eq!(container.has_entry("xl/A.xml"), Ok(false));
    assert_eq!(
        container.has_entry("xl/../a.xml"),
        Err(Error::ZipSlipDetected { entry_name: "xl/../a.xml".to_string() })
    );
    container.recount(5, 3);
    assert_eq!(container.total_read(), 8);
}

#[test]
fn a_part_with_damaged_data_breaks_off() {
    let data: Vec<u8> = (0..40_000u32).map(|i| (i * 7919 % 251) as u8).collect();
    let mut bytes = build_zip(&[("xl/a.xml", &data)]);
    let start = bytes.windows(8).position(|w| w == b"xl/a.xml").unwrap() + 8;
    for b in &mut bytes[start + 100..start + 200] {
        *b ^= 0xff;
    }
    let (part, total) = fetched(bytes, "xl/a.xml", 1_000_000, 1_000_000);
    assert_eq!(part.end, PartEnd::Broken);
    assert_eq!(total, part.bytes.len() as u64);
}

#[test]
fn a_part_with_a_wrong_checksum_breaks_off_behind_all_of_its_data() {
    let data = b"<a>stored as it is</a>";
    let mut buf = Vec::new();
    {
        let mut writer = zip::ZipWriter::new(Cursor::new(&mut buf));
        let options = zip::write::SimpleFileOptions::default()
            .compression_method(zip::CompressionMethod::Stored);
        writer.start_file("xl/a.xml", options).unwrap();
        writer.write_all(data).unwrap();
        writer.finish().unwrap();
    }
    let at = buf.windows(6).position(|w| w == b"stored").unwrap();
    buf[at] = b'S';
    let (part, _) = fetched(buf, "xl/a.xml", 1000, 1000);
    assert_eq!(part.end, PartEnd::Broken);
    assert_eq!(part.bytes, b"<a>Stored as it is</a>");
    let mut source = XmlSource::new(&part);
    assert!(matches!(source.next(), XmlEvent::Start(_)));
    assert!(matches!(source.next(), XmlEvent::Text(_)));
    assert!(matches!(source.next(), XmlEvent::End(_)));
    assert_eq!(source.next(), XmlEvent::Failure);
}

#[test]
fn a_part_over_a_cap_is_cut_off_and_its_count_told() {
    let data: Vec<u8> = (0..20_000u32).map(|i| b'a' + (i * 7919 % 26) as u8).collect();
    let zip = || build_zip(&[("xl/a.xml", &data)]);
    let over = |limit, actual| PartEnd::OverCap(LimitExceeded { limit, actual });
    for (entry, total, kept, end) in [
        (20_000, 20_000, 20_000, PartEnd::Whole),
        (19_999, 20_000, 16_384, over(19_999, 20_000)),
        (20_000, 19_999, 16_384, over(19_999, 20_000)),
        (16_384, 20_000, 16_384, over(16_384, 20_000)),
        (16_383, 20_000, 8_192, over(16_383, 16_384)),
        (10, 5, 0, over(10, 8_192)),
        (8_192, 5, 0, over(5, 8_192)),
        (0, 0, 0, over(0, 8_192)),
    ] {
        let (part, read) = fetched(zip(), "xl/a.xml", entry, total);
        assert_eq!((part.bytes.len(), part.end), (kept, end));
        assert_eq!(part.bytes, data[..kept]);
        assert_eq!(read, kept as u64);
    }
}
