use std::io::Cursor;
use std::path::Path;
use tukubai_core::{
    is_stdin_path, split_fields, FinalTermination, ParseError, ReaderOptions, RecordReader,
    STDIN_SOURCE_NAME,
};

#[test]
fn empty_input_has_no_records() {
    let mut reader = RecordReader::new(Cursor::new(Vec::<u8>::new()));

    assert_eq!(reader.read_record().unwrap(), None);
}

#[test]
fn reads_multiple_empty_records() {
    let mut reader = RecordReader::new(Cursor::new(b"\n\n".to_vec()));

    assert_eq!(reader.read_record().unwrap(), Some(&b""[..]));
    assert_eq!(reader.read_record().unwrap(), Some(&b""[..]));
    assert_eq!(reader.read_record().unwrap(), None);
}

#[test]
fn reads_lf_terminated_records() {
    let mut reader = RecordReader::new(Cursor::new(b"alpha\nbeta\n".to_vec()));

    assert_eq!(reader.read_record().unwrap(), Some(&b"alpha"[..]));
    assert_eq!(reader.read_record().unwrap(), Some(&b"beta"[..]));
    assert_eq!(reader.read_record().unwrap(), None);
}

#[test]
fn rejects_unterminated_final_record_by_default() {
    let mut reader = RecordReader::new(Cursor::new(b"alpha".to_vec()));

    let error = reader.read_record().unwrap_err();
    assert!(matches!(error, ParseError::UnterminatedFinalRecord));
}

#[test]
fn can_allow_unterminated_final_record() {
    let mut reader = RecordReader::with_options(
        Cursor::new(b"alpha".to_vec()),
        ReaderOptions {
            final_termination: FinalTermination::AllowUnterminatedFinalRecord,
        },
    );

    assert_eq!(reader.read_record().unwrap(), Some(&b"alpha"[..]));
    assert_eq!(reader.read_record().unwrap(), None);
}

#[test]
fn splits_empty_record_into_zero_fields() {
    let fields: Vec<&[u8]> = split_fields(b"").collect();
    assert_eq!(fields, Vec::<&[u8]>::new());
}

#[test]
fn splits_spaces_only_record_into_zero_fields() {
    let fields: Vec<&[u8]> = split_fields(b"   ").collect();
    assert_eq!(fields, Vec::<&[u8]>::new());
}

#[test]
fn splits_multiple_spaces_between_fields() {
    let fields: Vec<&[u8]> = split_fields(b"  a   b  c  ").collect();
    assert_eq!(fields, vec![&b"a"[..], &b"b"[..], &b"c"[..]]);
}

#[test]
fn keeps_tab_as_data() {
    let fields: Vec<&[u8]> = split_fields(b"a\tb c").collect();
    assert_eq!(fields, vec![&b"a\tb"[..], &b"c"[..]]);
}

#[test]
fn keeps_cr_as_data() {
    let fields: Vec<&[u8]> = split_fields(b"a\rb c").collect();
    assert_eq!(fields, vec![&b"a\rb"[..], &b"c"[..]]);
}

#[test]
fn keeps_nul_as_data() {
    let fields: Vec<&[u8]> = split_fields(b"a\0b c").collect();
    assert_eq!(fields, vec![&b"a\0b"[..], &b"c"[..]]);
}

#[test]
fn keeps_non_utf8_bytes_as_data() {
    let fields: Vec<&[u8]> = split_fields(b"\xff\xfe a").collect();
    assert_eq!(fields, vec![&b"\xff\xfe"[..], &b"a"[..]]);
}

#[test]
fn recognizes_dash_as_stdin_path() {
    assert!(is_stdin_path(
        Path::new(STDIN_SOURCE_NAME).as_os_str().as_encoded_bytes()
    ));
    assert!(!is_stdin_path(
        Path::new("input.txt").as_os_str().as_encoded_bytes()
    ));
}
