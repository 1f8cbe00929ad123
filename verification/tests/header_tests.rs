use page_store::disk::MemDisk;
use page_store::error::StoreError;
use page_store::header::{encode_header, parse_header};
use page_store::store::FileHandle;

#[test]
fn encode_is_pipe_delimited_text() {
    let out = encode_header(1, 2, 3, 4);
    assert_eq!(&out[..], b"1|2|3|4");
    let out = encode_header(0, 0, 0, 0);
    assert_eq!(&out[..], b"0|0|0|0");
    let out = encode_header(1500, 0, 42, 7);
    assert_eq!(&out[..], b"1500|0|42|7");
}

#[test]
fn fresh_medium_gets_zeroed_header() {
    let h = FileHandle::new(MemDisk::new()).unwrap();
    assert_eq!(h.get_num_pages(), 0);
    let bytes = h.into_disk().into_bytes();
    assert_eq!(&bytes[..], b"0|0|0|0\0");
}

#[test]
fn write_counters_writes_terminated_text() {
    let mut h = FileHandle::new(MemDisk::new()).unwrap();
    let written = h.write_counters();
    assert_eq!(written, 8);
    let bytes = h.into_disk().into_bytes();
    assert_eq!(&bytes[..], b"0|0|0|0\0");
}

#[test]
fn header_parses_four_fields() {
    let raw = b"10|20|30|4".to_vec();
    assert_eq!(parse_header(&raw), Ok((10, 20, 30, 4)));
}

#[test]
fn header_zero_fields_are_valid_data() {
    let raw = b"0|0|5|1".to_vec();
    assert_eq!(parse_header(&raw), Ok((0, 0, 5, 1)));
}

#[test]
fn header_tolerates_whitespace() {
    let raw = b" 1 |\t2|3 | 4".to_vec();
    assert_eq!(parse_header(&raw), Ok((1, 2, 3, 4)));
}

#[test]
fn header_text_ends_at_first_nul() {
    let mut raw = b"7|8|9|2".to_vec();
    raw.resize(64, 0);
    assert_eq!(parse_header(&raw), Ok((7, 8, 9, 2)));
}

#[test]
fn header_with_wrong_field_count_recovers_as_zeroes() {
    assert_eq!(parse_header(&b"garbage".to_vec()), Ok((0, 0, 0, 0)));
    assert_eq!(parse_header(&b"1|2|3".to_vec()), Ok((0, 0, 0, 0)));
    assert_eq!(parse_header(&b"1|2|3|4|5".to_vec()), Ok((0, 0, 0, 0)));
}

#[test]
fn header_with_empty_field_recovers_as_zeroes() {
    assert_eq!(parse_header(&b"1||3|4".to_vec()), Ok((0, 0, 0, 0)));
    assert_eq!(parse_header(&b"1|2|3| ".to_vec()), Ok((0, 0, 0, 0)));
}

#[test]
fn header_with_non_numeric_field_is_fatal() {
    assert_eq!(
        parse_header(&b"1|2|3|x".to_vec()),
        Err(StoreError::MalformedNumericField),
    );
    assert_eq!(
        parse_header(&b"1|2x|3|4".to_vec()),
        Err(StoreError::MalformedNumericField),
    );
}

#[test]
fn header_with_oversized_field_is_fatal() {
    // Far beyond what any machine word holds.
    let raw = b"1|2|3|99999999999999999999999999".to_vec();
    assert_eq!(parse_header(&raw), Err(StoreError::MalformedNumericField));
    // A page count no machine of this word size can address.
    let raw = format!("1|2|3|{}", usize::MAX).into_bytes();
    assert_eq!(parse_header(&raw), Err(StoreError::MalformedNumericField));
}

#[test]
fn open_fails_on_malformed_header() {
    let disk = MemDisk::from_bytes(b"1|2|3|x".to_vec());
    match FileHandle::new(disk) {
        Err(e) => assert_eq!(e, StoreError::MalformedNumericField),
        Ok(_) => panic!("a malformed numeric field must not open"),
    }
}

#[test]
fn open_recovers_zeroes_from_mangled_header() {
    let disk = MemDisk::from_bytes(b"not a header at all".to_vec());
    let h = FileHandle::new(disk).unwrap();
    assert_eq!(h.get_read_count(), 0);
    assert_eq!(h.get_write_count(), 0);
    assert_eq!(h.get_append_count(), 0);
    assert_eq!(h.get_num_pages(), 0);
}
