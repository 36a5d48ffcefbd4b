use xlsxparser::container::sanitize::{
    validate_entry_path, BoundedReader, LimitExceeded, ReadFault, SizeLimits, DEFAULT_MAX_CELLS_PER_SHEET,
    DEFAULT_MAX_TOTAL_UNCOMPRESSED_SIZE, DEFAULT_MAX_UNCOMPRESSED_SIZE,
};
use xlsxparser::Error;

#[test]
fn size_limits_default_matches_the_default_constants() {
    let limits = SizeLimits::default();
    assert_eq!(limits.max_entry_size, DEFAULT_MAX_UNCOMPRESSED_SIZE);
    assert_eq!(limits.max_total_size, DEFAULT_MAX_TOTAL_UNCOMPRESSED_SIZE);
    assert_eq!(limits.max_cells_per_sheet, DEFAULT_MAX_CELLS_PER_SHEET);
    assert_eq!(DEFAULT_MAX_UNCOMPRESSED_SIZE, 536_870_912);
    assert_eq!(DEFAULT_MAX_TOTAL_UNCOMPRESSED_SIZE, 2_147_483_648);
    assert_eq!(DEFAULT_MAX_CELLS_PER_SHEET, 5_000_000);
}

#[test]
fn validate_entry_path_rejects_traversal_and_malformed_names() {
    let invalid = [
        "../../../etc/passwd",
        "/etc/passwd",
        "xl/../../evil",
        "C:\\Windows\\System32\\evil",
        "",
    ];
    for name in invalid {
        assert!(
            validate_entry_path(name).is_err(),
            "expected {name:?} to be rejected"
        );
    }
}

#[test]
fn validate_entry_path_names_the_entry_and_rejects_a_bare_drive_letter() {
    assert_eq!(
        validate_entry_path("C:evil"),
        Err(Error::ZipSlipDetected {
            entry_name: "C:evil".to_string()
        })
    );
    assert_eq!(validate_entry_path("xl/..hidden/a..b"), Ok(()));
}

#[test]
fn validate_entry_path_accepts_legitimate_opc_names() {
    let valid = [
        "xl/worksheets/sheet1.xml",
        "[Content_Types].xml",
        "xl/_rels/workbook.xml.rels",
        "xl/media/image1.png",
    ];
    for name in valid {
        assert!(
            validate_entry_path(name).is_ok(),
            "expected {name:?} to be accepted"
        );
    }
}

#[test]
fn bounded_reader_allows_reads_up_to_per_entry_limit() {
    let data = [0u8; 10];
    let mut cumulative = 0u64;
    let mut reader = BoundedReader::new(&data[..], 10, &mut cumulative, 1000);

    let mut out = Vec::new();
    reader.read_to_end(&mut out).unwrap();
    assert_eq!(out.len(), 10);
    assert_eq!(cumulative, 10);
}

#[test]
fn bounded_reader_rejects_read_exceeding_per_entry_limit() {
    let data = [0u8; 11];
    let mut cumulative = 0u64;
    let mut reader = BoundedReader::new(&data[..], 10, &mut cumulative, 1000);

    let mut out = Vec::new();
    assert_eq!(
        reader.read_to_end(&mut out),
        Err(ReadFault::Limit(LimitExceeded { limit: 10, actual: 11 }))
    );
}

#[test]
fn bounded_reader_enforces_cumulative_limit_across_calls() {
    let mut cumulative = 15u64; // already read from a prior entry
    let data = [0u8; 10];
    let mut reader = BoundedReader::new(&data[..], 1000, &mut cumulative, 20);

    let mut out = Vec::new();
    assert_eq!(
        reader.read_to_end(&mut out),
        Err(ReadFault::Limit(LimitExceeded { limit: 20, actual: 25 }))
    );
}

#[test]
fn bounded_reader_within_limits_passes_bytes_through_and_counts_correctly() {
    let data = b"hello world".to_vec();
    let mut cumulative = 5u64;
    let mut reader = BoundedReader::new(&data[..], 100, &mut cumulative, 100);

    let mut out = Vec::new();
    reader.read_to_end(&mut out).unwrap();
    assert_eq!(out, data);
    assert_eq!(cumulative, 5 + data.len() as u64);
}

#[test]
fn bounded_reader_stops_at_the_read_that_exceeds_a_limit() {
    let data = b"hello world".to_vec();
    let mut cumulative = 0u64;
    let mut reader = BoundedReader::new(&data[..], 8, &mut cumulative, 100);

    let mut out = Vec::new();
    assert_eq!(reader.read(5, &mut out), Ok(5));
    assert_eq!(reader.read(0, &mut out), Ok(0));
    assert_eq!(reader.read(3, &mut out), Ok(3));
    assert_eq!(out, b"hello wo");
    assert_eq!(
        reader.read(100, &mut out),
        Err(ReadFault::Limit(LimitExceeded { limit: 8, actual: 11 }))
    );
    assert_eq!(out, b"hello wo");
    assert_eq!(cumulative, 11);
}

#[test]
fn bounded_reader_of_a_broken_entry_ends_in_a_fault() {
    let data = b"hello".to_vec();
    let mut cumulative = 0u64;
    let mut reader = BoundedReader::new(&data[..], 8, &mut cumulative, 100);
    reader.intact = false;

    let mut out = Vec::new();
    assert_eq!(reader.read(100, &mut out), Ok(5));
    assert_eq!(reader.read(100, &mut out), Err(ReadFault::Broken));
    assert_eq!(out, b"hello");
    assert_eq!(cumulative, 5);
}
