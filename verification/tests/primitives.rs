use ecoff::error::{EcoffError, LayoutIssue};
use ecoff::reader::Reader;
use ecoff::strings::StringTable;

#[test]
fn reads_are_big_endian() {
    let data = [0x12u8, 0x34, 0xDE, 0xAD, 0xBE, 0xEF];
    let mut r = Reader::new(&data);
    assert_eq!(r.read_u16().unwrap(), 0x1234);
    assert_eq!(r.read_u32().unwrap(), 0xDEADBEEF);
}

#[test]
fn short_read_reports_requested_and_available() {
    let data = [0xFFu8];
    let mut r = Reader::new(&data);
    assert_eq!(
        r.read_u16().unwrap_err(),
        EcoffError::TruncatedInput { requested: 2, available: 1 }
    );
    // The failed read does not move the position; the byte is still there.
    let got = r.read_exact(1).unwrap();
    assert_eq!(got, vec![0xFF]);
}

#[test]
fn seek_past_end_fails_on_next_read() {
    let data = [1u8, 2, 3, 4];
    let mut r = Reader::new(&data);
    r.seek(100);
    assert_eq!(
        r.read_u32().unwrap_err(),
        EcoffError::TruncatedInput { requested: 4, available: 0 }
    );
    r.seek(2);
    assert_eq!(r.read_exact(2).unwrap(), vec![3, 4]);
}

#[test]
fn zero_length_read_succeeds_wherever_the_position_stands() {
    let data = [1u8, 2, 3, 4];
    let mut r = Reader::new(&data);
    r.seek(100);
    assert_eq!(r.read_exact(0).unwrap(), Vec::<u8>::new());
    assert_eq!(
        r.read_u16().unwrap_err(),
        EcoffError::TruncatedInput { requested: 2, available: 0 }
    );
}

#[test]
fn read_exact_consumes_exactly_the_requested_bytes() {
    let data = [9u8, 8, 7, 6, 5];
    let mut r = Reader::new(&data);
    assert_eq!(r.read_exact(3).unwrap(), vec![9, 8, 7]);
    assert_eq!(
        r.read_exact(3).unwrap_err(),
        EcoffError::TruncatedInput { requested: 3, available: 2 }
    );
}

#[test]
fn empty_blob_yields_no_strings() {
    let t = StringTable::new(Vec::new());
    assert_eq!(t.strings(), Vec::<Vec<u8>>::new());
    assert_eq!(t.len(), 0);
}

#[test]
fn strings_split_on_null_terminators() {
    let t = StringTable::new(b"ab\0cd\0".to_vec());
    assert_eq!(t.strings(), vec![b"ab".to_vec(), b"cd".to_vec()]);
}

#[test]
fn missing_trailing_terminator_is_not_an_error() {
    let t = StringTable::new(b"ab\0cd".to_vec());
    assert_eq!(t.strings(), vec![b"ab".to_vec(), b"cd".to_vec()]);
}

#[test]
fn consecutive_nulls_yield_empty_strings() {
    let t = StringTable::new(b"\0\0a\0".to_vec());
    assert_eq!(t.strings(), vec![Vec::new(), Vec::new(), b"a".to_vec()]);
}

#[test]
fn string_at_reads_from_any_offset() {
    let t = StringTable::new(b"ab\0cd\0".to_vec());
    assert_eq!(t.string_at(0).unwrap(), b"ab".to_vec());
    assert_eq!(t.string_at(1).unwrap(), b"b".to_vec());
    assert_eq!(t.string_at(3).unwrap(), b"cd".to_vec());
    assert_eq!(t.string_at(6).unwrap(), Vec::<u8>::new());
}

#[test]
fn string_offset_past_blob_end_is_invalid_layout() {
    let t = StringTable::new(b"ab\0".to_vec());
    assert_eq!(
        t.string_at(4).unwrap_err(),
        EcoffError::InvalidLayout { reason: LayoutIssue::StringOffsetOutOfRange }
    );
}
