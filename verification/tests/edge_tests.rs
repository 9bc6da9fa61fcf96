use std::io::{self, BufRead, Read};
use tukubai_core::decimal::compare_numeric_bytes;
use tukubai_core::output::{classify_fd_check, FdCheck, EBADF};
use tukubai_core::{
    parse_key_program, parse_selectors, resolve_key_positions, resolve_selectors, KeyCompareError,
    KeyFieldExpr, KeyItem, KeyOptions, KeyParseError, KeyResolveError, ParseError, RecordReader,
    Selector, SelectorOptions, SelectorParseError, SelectorResolveError, OutputError,
};

struct FailingReader;

impl Read for FailingReader {
    fn read(&mut self, _buf: &mut [u8]) -> io::Result<usize> {
        Err(io::Error::other("device failed"))
    }
}

impl BufRead for FailingReader {
    fn fill_buf(&mut self) -> io::Result<&[u8]> {
        Err(io::Error::other("device failed"))
    }

    fn consume(&mut self, _amount: usize) {}
}

fn key_error(input: &[u8]) -> KeyParseError {
    parse_key_program(input, KeyOptions::default()).unwrap_err()
}

#[test]
fn read_errors_are_reported_as_io() {
    let mut reader = RecordReader::new(FailingReader);
    let error = reader.read_record().unwrap_err();
    assert!(matches!(error, ParseError::Io(_)));
    assert_eq!(error.message(), "I/O error");
}

#[test]
fn key_suffix_without_expression_is_invalid() {
    assert_eq!(key_error(b"n"), KeyParseError::InvalidSyntax);
    assert_eq!(key_error(b"r"), KeyParseError::InvalidSyntax);
    assert_eq!(key_error(b"nr"), KeyParseError::InvalidSyntax);
    assert_eq!(key_error(b"1rn"), KeyParseError::InvalidSyntax);
    assert_eq!(key_error(b"2nn"), KeyParseError::InvalidSyntax);
}

#[test]
fn key_numbers_that_overflow_are_invalid_numbers() {
    assert_eq!(key_error(b"18446744073709551616"), KeyParseError::InvalidNumber);
    assert_eq!(key_error(b"NF-18446744073709551616"), KeyParseError::InvalidNumber);
    let program = parse_key_program(b"18446744073709551615", KeyOptions::default()).unwrap();
    assert_eq!(
        program.items(),
        &[KeyItem::Field(tukubai_core::KeyField {
            expr: KeyFieldExpr::FieldNumber(u64::MAX),
            attr: tukubai_core::KeyAttr::default(),
        })]
    );
}

#[test]
fn key_malformed_terms_are_invalid_syntax() {
    assert_eq!(key_error(b"NF-"), KeyParseError::InvalidSyntax);
    assert_eq!(key_error(b"NF-x"), KeyParseError::InvalidSyntax);
    assert_eq!(key_error(b"1/2/3"), KeyParseError::InvalidSyntax);
    assert_eq!(key_error(b"2/0"), KeyParseError::ZeroInRange);
    assert_eq!(key_error(b"0n"), KeyParseError::UnsupportedZero);
}

#[test]
fn key_first_failing_item_decides_the_error() {
    let options = KeyOptions { allow_numeric: false, allow_descending: true };
    assert_eq!(
        parse_key_program(b"2n@@", options).unwrap_err(),
        KeyParseError::UnsupportedNumeric
    );
    assert_eq!(key_error(b"x@0"), KeyParseError::InvalidSyntax);
}

#[test]
fn key_double_zero_is_zero() {
    assert_eq!(key_error(b"00"), KeyParseError::UnsupportedZero);
    assert_eq!(key_error(b"00n"), KeyParseError::UnsupportedZero);
    assert_eq!(key_error(b"1/00"), KeyParseError::ZeroInRange);
    let program = parse_key_program(b"01", KeyOptions::default()).unwrap();
    assert_eq!(resolve_key_positions(&program, b"a b").unwrap()[0].position.get(), 1);
}

#[test]
fn nf_minus_zero_is_the_last_field() {
    let program = parse_selectors(&[b"NF-0".as_slice()], SelectorOptions::default()).unwrap();
    assert_eq!(program.selectors(), &[Selector::LastFieldMinus(0)]);
    assert_eq!(
        resolve_selectors(&program, b"a b c").unwrap(),
        vec![tukubai_core::ResolvedItem::Field(b"c".as_slice())]
    );
}

#[test]
fn selector_numbers_that_overflow_are_invalid_numbers() {
    let error = parse_selectors(&[b"99999999999999999999".as_slice()], SelectorOptions::default())
        .unwrap_err();
    assert_eq!(error, SelectorParseError::InvalidNumber);
}

#[test]
fn selector_resolution_checks_every_selector() {
    let program = parse_selectors(&[b"0".as_slice(), b"5".as_slice()], SelectorOptions::multi_field(true)).unwrap();
    assert_eq!(
        resolve_selectors(&program, b"a").unwrap_err(),
        SelectorResolveError::MissingField
    );
}

#[test]
fn error_messages() {
    assert_eq!(KeyParseError::Empty.message(), "empty key is not allowed");
    assert_eq!(KeyParseError::MixedRangeAttributes.message(), "range endpoints must use the same comparison attributes");
    assert_eq!(KeyResolveError::NfResolvedToZero.message(), "key expression NF-<n> resolved to field 0");
    assert_eq!(KeyCompareError::KeyLengthMismatch.message(), "resolved keys have different lengths and cannot be compared");
    assert_eq!(SelectorParseError::UnsupportedRange.message(), "range selectors are not supported by this command");
    assert_eq!(SelectorResolveError::UnsupportedZero.message(), "selector 0 cannot be resolved to a field position");
    assert_eq!(ParseError::UnterminatedFinalRecord.message(), "final record is not terminated by LF");
    assert_eq!(OutputError::InvalidFileDescriptor.message(), "invalid output file descriptor");
}

#[test]
fn rejects_invalid_borrowed_fd() {
    assert_eq!(classify_fd_check(-1, Some(EBADF)), FdCheck::Invalid);
}

#[test]
fn numeric_zero_compares_equal_whatever_its_sign() {
    assert_eq!(compare_numeric_bytes(b"-0", b"0"), Some(0));
    assert_eq!(compare_numeric_bytes(b"+0.0", b"-.000"), Some(0));
    assert_eq!(compare_numeric_bytes(b"-0.5", b"0"), Some(-1));
    assert_eq!(compare_numeric_bytes(b".5", b"0.50"), Some(0));
    assert_eq!(compare_numeric_bytes(b"-2", b"-10"), Some(1));
    assert_eq!(compare_numeric_bytes(b".", b"0"), None);
}

#[test]
fn key_items_follow_the_at_parts() {
    let program = parse_key_program(b"1/2@3n@NF-1r/NFr", KeyOptions::default()).unwrap();
    let ranges: Vec<bool> = program.items().iter().map(|i| matches!(i, KeyItem::Range(..))).collect();
    assert_eq!(ranges, vec![true, false, true]);
}

#[test]
fn wider_options_accept_the_same_key() {
    let narrow = KeyOptions { allow_numeric: true, allow_descending: false };
    let a = parse_key_program(b"2n@3", narrow).unwrap();
    let b = parse_key_program(b"2n@3", KeyOptions::unrestricted()).unwrap();
    assert_eq!(a, b);
}
