use std::io::Cursor;
use tukubai_core::delf::delete_fields;
use tukubai_core::field_filter::{
    delr_keeps_record, filter_has_file, selected_field_equals, selr_keeps_record,
    FieldFilterError,
};
use tukubai_core::select::select_fields;
use tukubai_core::selector::{split_selector_arguments, SelectorArgs};
use tukubai_core::join0::{
    both_inputs_are_stdin, parse_join_arguments, parse_key_argument, parse_optional_ng,
    resolve_tran_key, step_master, JoinArgError, JoinError, JoinStep, NgOption,
};
use tukubai_core::lcnt::{count_records, split_lcnt_arguments};
use tukubai_core::output::{classify_fd_check, write_step, FdCheck, WriteStep};
use tukubai_core::{
    parse_key_program, parse_selectors, FieldPosition, KeyAttr, KeyCompareError, KeyKind,
    KeyOptions, KeyResolveError, ParseError, RecordReader, ResolvedKeyPosition, SelectorOptions,
    SelectorResolveError,
};

fn delf_program(tokens: &[&[u8]]) -> tukubai_core::SelectorProgram {
    parse_selectors(tokens, SelectorOptions::multi_field(false)).unwrap()
}

#[test]
fn delf_deletes_selected_fields() {
    let program = delf_program(&[b"2".as_slice()]);
    assert_eq!(delete_fields(&program, b"a b c d").unwrap(), b"a c d".to_vec());
}

#[test]
fn delf_deletes_ranges_and_nf() {
    let program = delf_program(&[b"NF-1/NF".as_slice(), b"1".as_slice()]);
    assert_eq!(delete_fields(&program, b"a b c d e").unwrap(), b"b c".to_vec());
}

#[test]
fn delf_deletes_a_field_named_twice_once() {
    let program = delf_program(&[b"2".as_slice(), b"2/3".as_slice(), b"2".as_slice()]);
    assert_eq!(delete_fields(&program, b"a b c d").unwrap(), b"a d".to_vec());
}

#[test]
fn delf_collapses_spaces_of_kept_fields() {
    let program = delf_program(&[b"2".as_slice()]);
    assert_eq!(delete_fields(&program, b"  a   b  c  ").unwrap(), b"a c".to_vec());
}

#[test]
fn delf_can_delete_every_field() {
    let program = delf_program(&[b"1/NF".as_slice()]);
    assert_eq!(delete_fields(&program, b"a b c").unwrap(), Vec::<u8>::new());
}

#[test]
fn delf_reports_missing_field() {
    let program = delf_program(&[b"4".as_slice()]);
    assert_eq!(
        delete_fields(&program, b"a b c").unwrap_err(),
        SelectorResolveError::MissingField
    );
    assert_eq!(
        delete_fields(&program, b"").unwrap_err(),
        SelectorResolveError::MissingField
    );
}

#[test]
fn delf_reports_nf_minus_resolving_to_zero() {
    let program = delf_program(&[b"NF-2".as_slice()]);
    assert_eq!(
        delete_fields(&program, b"a b").unwrap_err(),
        SelectorResolveError::NfResolvedToZero
    );
}

#[test]
fn selector_arguments_need_a_selector() {
    assert_eq!(split_selector_arguments(&[], SelectorOptions::multi_field(false)), None);
}

#[test]
fn single_token_is_a_selector() {
    assert_eq!(
        split_selector_arguments(&[b"data.txt".as_slice()], SelectorOptions::multi_field(false)),
        Some(SelectorArgs { selector_count: 1, has_file: false })
    );
}

#[test]
fn last_token_is_a_file_unless_it_is_a_selector() {
    assert_eq!(
        split_selector_arguments(&[b"1".as_slice(), b"data.txt".as_slice()], SelectorOptions::multi_field(false)),
        Some(SelectorArgs { selector_count: 1, has_file: true })
    );
    assert_eq!(
        split_selector_arguments(&[b"1".as_slice(), b"NF".as_slice()], SelectorOptions::multi_field(false)),
        Some(SelectorArgs { selector_count: 2, has_file: false })
    );
    assert_eq!(
        split_selector_arguments(&[b"1".as_slice(), b"-".as_slice()], SelectorOptions::multi_field(false)),
        Some(SelectorArgs { selector_count: 1, has_file: true })
    );
    assert_eq!(
        split_selector_arguments(&[b"1".as_slice(), b"0".as_slice()], SelectorOptions::multi_field(false)),
        Some(SelectorArgs { selector_count: 1, has_file: true })
    );
}

#[test]
fn delr_argument_counts() {
    assert_eq!(filter_has_file(1), None);
    assert_eq!(filter_has_file(2), Some(false));
    assert_eq!(filter_has_file(3), Some(true));
    assert_eq!(filter_has_file(4), None);
}

#[test]
fn delr_keeps_records_whose_field_differs() {
    let program = parse_selectors(&[b"2".as_slice()], SelectorOptions::single_field(false)).unwrap();
    assert_eq!(delr_keeps_record(&program, b"a b c", b"b"), Ok(false));
    assert_eq!(delr_keeps_record(&program, b"a bb c", b"b"), Ok(true));
    assert_eq!(delr_keeps_record(&program, b" a  b ", b"b"), Ok(false));
}

#[test]
fn delr_keeps_every_record_for_an_empty_string() {
    let program = parse_selectors(&[b"3".as_slice()], SelectorOptions::single_field(false)).unwrap();
    assert_eq!(delr_keeps_record(&program, b"a b", b""), Ok(true));
    assert_eq!(delr_keeps_record(&program, b"", b""), Ok(true));
}

#[test]
fn delr_reports_missing_field() {
    let program = parse_selectors(&[b"3".as_slice()], SelectorOptions::single_field(false)).unwrap();
    assert_eq!(
        delr_keeps_record(&program, b"a b", b"x"),
        Err(FieldFilterError::Resolve(SelectorResolveError::MissingField))
    );
}

#[test]
fn delr_needs_exactly_one_field() {
    let program = parse_selectors(
        &[b"1".as_slice(), b"2".as_slice()],
        SelectorOptions::single_field(false),
    )
    .unwrap();
    assert_eq!(delr_keeps_record(&program, b"a b", b"x"), Err(FieldFilterError::NotOneField));
}

#[test]
fn lcnt_counts_lf_terminated_records() {
    let mut reader = RecordReader::new(Cursor::new(b"a\n\nb c\n".to_vec()));
    assert_eq!(count_records(&mut reader).unwrap(), 3);
    let mut empty = RecordReader::new(Cursor::new(Vec::<u8>::new()));
    assert_eq!(count_records(&mut empty).unwrap(), 0);
}

#[test]
fn lcnt_rejects_unterminated_final_record() {
    let mut reader = RecordReader::new(Cursor::new(b"a\nb".to_vec()));
    let error = count_records(&mut reader).unwrap_err();
    assert!(matches!(error, ParseError::UnterminatedFinalRecord));
}

#[test]
fn lcnt_arguments_split_flag_and_files() {
    let (show, files) = split_lcnt_arguments(&[
        b"a.txt".as_slice(),
        b"-f".as_slice(),
        b"-".as_slice(),
        b"-ff".as_slice(),
    ]);
    assert!(show);
    assert_eq!(files, vec![b"a.txt".as_slice(), b"-".as_slice(), b"-ff".as_slice()]);
    let (show, files) = split_lcnt_arguments(&[]);
    assert!(!show);
    assert!(files.is_empty());
}

#[test]
fn join0_reads_ng_option() {
    assert_eq!(parse_optional_ng(b"+ng3"), NgOption::Fd(3));
    assert_eq!(parse_optional_ng(b"+ng007"), NgOption::Fd(7));
    assert_eq!(parse_optional_ng(b"+ng4294967295"), NgOption::Fd(4294967295));
    assert_eq!(parse_optional_ng(b"+ng4294967296"), NgOption::Invalid);
    assert_eq!(parse_optional_ng(b"+ng"), NgOption::Invalid);
    assert_eq!(parse_optional_ng(b"+ng3x"), NgOption::Invalid);
    assert_eq!(parse_optional_ng(b"key=1"), NgOption::Absent);
    assert_eq!(parse_optional_ng(b"+n"), NgOption::Absent);
}

#[test]
fn join0_reads_key_argument() {
    assert_eq!(parse_key_argument(b"key=2@NF"), Some(b"2@NF".as_slice()));
    assert_eq!(parse_key_argument(b"key="), None);
    assert_eq!(parse_key_argument(b"kex=1"), None);
    assert_eq!(parse_key_argument(b"2"), None);
}

#[test]
fn join0_reads_arguments() {
    let args = parse_join_arguments(&[
        b"+ng3".as_slice(),
        b"key=1".as_slice(),
        b"master".as_slice(),
        b"tran".as_slice(),
    ])
    .unwrap();
    assert_eq!(args.ng_fd, Some(3));
    assert_eq!(args.key, b"1".as_slice());
    assert_eq!(args.master, b"master".as_slice());
    assert_eq!(args.tran, Some(b"tran".as_slice()));

    let args = parse_join_arguments(&[b"key=2".as_slice(), b"-".as_slice()]).unwrap();
    assert_eq!(args.ng_fd, None);
    assert_eq!(args.key, b"2".as_slice());
    assert_eq!(args.master, b"-".as_slice());
    assert_eq!(args.tran, None);
}

#[test]
fn join0_refuses_bad_arguments() {
    assert_eq!(
        parse_join_arguments(&[b"+ngx".as_slice(), b"key=1".as_slice(), b"m".as_slice()]).unwrap_err(),
        JoinArgError::InvalidNgFd
    );
    assert_eq!(
        parse_join_arguments(&[b"1".as_slice(), b"m".as_slice()]).unwrap_err(),
        JoinArgError::MissingKey
    );
    assert_eq!(
        parse_join_arguments(&[b"key=1".as_slice()]).unwrap_err(),
        JoinArgError::Usage
    );
    assert_eq!(parse_join_arguments(&[]).unwrap_err(), JoinArgError::Usage);
    assert_eq!(
        JoinArgError::Usage.message(),
        "usage: join0 [+ng<fd>] key=<key> <master> [<tran>]"
    );
}

#[test]
fn join0_refuses_standard_input_twice() {
    assert!(both_inputs_are_stdin(b"-", None));
    assert!(both_inputs_are_stdin(b"-", Some(b"-")));
    assert!(!both_inputs_are_stdin(b"-", Some(b"tran")));
    assert!(!both_inputs_are_stdin(b"master", None));
}

#[test]
fn join0_maps_key_positions_onto_master() {
    let program = parse_key_program(b"3@5", KeyOptions::default()).unwrap();
    let tran = resolve_tran_key(&program, b"a b c d e").unwrap();
    assert_eq!(
        tran.master_positions,
        vec![
            ResolvedKeyPosition {
                position: FieldPosition::from_one_based(1),
                attr: KeyAttr::default(),
            },
            ResolvedKeyPosition {
                position: FieldPosition::from_one_based(3),
                attr: KeyAttr::default(),
            },
        ]
    );
    assert_eq!(tran.key.fields()[0].bytes, b"c".as_slice());
    assert_eq!(tran.key.fields()[1].bytes, b"e".as_slice());
}

#[test]
fn join0_maps_nf_range_onto_master() {
    let program = parse_key_program(b"NF-2/NF", KeyOptions::default()).unwrap();
    let tran = resolve_tran_key(&program, b"x y z").unwrap();
    let numbers: Vec<u64> = tran.master_positions.iter().map(|p| p.position.get()).collect();
    assert_eq!(numbers, vec![1, 2, 3]);
}

#[test]
fn join0_steps_through_master() {
    let program = parse_key_program(b"2", KeyOptions::default()).unwrap();
    let tran = resolve_tran_key(&program, b"t b").unwrap();
    let positions = tran.master_positions.as_slice();
    assert_eq!(step_master(positions, Some(b"a x"), &tran.key), Ok(JoinStep::Advance));
    assert_eq!(step_master(positions, Some(b"b x"), &tran.key), Ok(JoinStep::Matched));
    assert_eq!(step_master(positions, Some(b"c x"), &tran.key), Ok(JoinStep::Unmatched));
    assert_eq!(step_master(positions, None, &tran.key), Ok(JoinStep::Unmatched));
    assert_eq!(
        step_master(positions, Some(b""), &tran.key),
        Err(JoinError::Resolve(KeyResolveError::MissingField))
    );
}

#[test]
fn join0_step_reports_invalid_numbers() {
    let program = parse_key_program(b"1n", KeyOptions::default()).unwrap();
    let tran = resolve_tran_key(&program, b"10").unwrap();
    let positions = tran.master_positions.as_slice();
    assert_eq!(step_master(positions, Some(b"9"), &tran.key), Ok(JoinStep::Advance));
    assert_eq!(step_master(positions, Some(b"010.0"), &tran.key), Ok(JoinStep::Matched));
    assert_eq!(
        step_master(positions, Some(b"x"), &tran.key),
        Err(JoinError::Compare(KeyCompareError::InvalidNumericValue))
    );
}

#[test]
fn join0_refuses_unresolvable_tran_key() {
    let program = parse_key_program(b"NF-2", KeyOptions::default()).unwrap();
    assert_eq!(
        resolve_tran_key(&program, b"a b").err(),
        Some(KeyResolveError::NfResolvedToZero)
    );
}

#[test]
fn output_classifies_fd_checks() {
    assert_eq!(classify_fd_check(0, None), FdCheck::Valid);
    assert_eq!(classify_fd_check(-1, Some(9)), FdCheck::Invalid);
    assert_eq!(classify_fd_check(-1, Some(5)), FdCheck::OsError);
    assert_eq!(classify_fd_check(-1, None), FdCheck::OsError);
}

#[test]
fn output_decides_write_steps() {
    assert_eq!(write_step(10, -1, Some(4)), WriteStep::Retry);
    assert_eq!(write_step(10, -1, Some(5)), WriteStep::Failed);
    assert_eq!(write_step(10, -2, None), WriteStep::NegativeCount);
    assert_eq!(write_step(10, 0, None), WriteStep::WroteZero);
    assert_eq!(write_step(10, 4, None), WriteStep::Wrote(4, 6));
    assert_eq!(write_step(10, 10, None), WriteStep::Wrote(10, 0));
}

#[test]
fn numeric_attribute_kinds_are_distinct() {
    let attr = KeyAttr { kind: KeyKind::Numeric, descending: true };
    assert_ne!(attr, KeyAttr::default());
}

#[test]
fn zero_is_a_selector_where_the_command_allows_it() {
    assert_eq!(
        split_selector_arguments(&[b"1".as_slice(), b"0".as_slice()], SelectorOptions::multi_field(true)),
        Some(SelectorArgs { selector_count: 2, has_file: false })
    );
}

fn self_program(tokens: &[&[u8]]) -> tukubai_core::SelectorProgram {
    parse_selectors(tokens, SelectorOptions::multi_field(true)).unwrap()
}

#[test]
fn self_selects_fields_in_order() {
    let program = self_program(&[b"2".as_slice(), b"1".as_slice()]);
    assert_eq!(select_fields(&program, b"a b c").unwrap(), b"b a".to_vec());
    assert_eq!(select_fields(&program, b"x y z").unwrap(), b"y x".to_vec());
}

#[test]
fn self_resolves_nf_per_record() {
    let program = self_program(&[b"NF-1".as_slice(), b"NF".as_slice()]);
    assert_eq!(select_fields(&program, b"a b c").unwrap(), b"b c".to_vec());
    assert_eq!(select_fields(&program, b"alpha beta").unwrap(), b"alpha beta".to_vec());
}

#[test]
fn self_expands_reverse_ranges_and_keeps_duplicates() {
    let program = self_program(&[b"4/2".as_slice()]);
    assert_eq!(select_fields(&program, b"a b c d").unwrap(), b"d c b".to_vec());
    let program = self_program(&[b"2".as_slice(), b"2/3".as_slice(), b"2".as_slice()]);
    assert_eq!(select_fields(&program, b"a b c").unwrap(), b"b b c b".to_vec());
}

#[test]
fn self_writes_the_raw_record_for_zero() {
    let program = self_program(&[b"2".as_slice(), b"0".as_slice()]);
    assert_eq!(select_fields(&program, b"  a  b  ").unwrap(), b"b   a  b  ".to_vec());
    let zero = self_program(&[b"0".as_slice()]);
    assert_eq!(select_fields(&zero, b"").unwrap(), Vec::<u8>::new());
}

#[test]
fn self_reports_missing_fields() {
    let program = self_program(&[b"4".as_slice()]);
    assert_eq!(
        select_fields(&program, b"a b c").unwrap_err(),
        SelectorResolveError::MissingField
    );
    let program = self_program(&[b"1".as_slice()]);
    assert_eq!(
        select_fields(&program, b"").unwrap_err(),
        SelectorResolveError::MissingField
    );
}

#[test]
fn selr_keeps_records_whose_field_equals() {
    let program = parse_selectors(&[b"2".as_slice()], SelectorOptions::single_field(false)).unwrap();
    assert_eq!(selr_keeps_record(&program, b"a beta c", b"beta"), Ok(true));
    assert_eq!(selr_keeps_record(&program, b"a bet c", b"beta"), Ok(false));
    assert_eq!(selr_keeps_record(&program, b"  a  b  ", b"b"), Ok(true));
    assert_eq!(selr_keeps_record(&program, b"", b""), Ok(true));
    assert_eq!(
        selr_keeps_record(&program, b"a", b"x"),
        Err(FieldFilterError::Resolve(SelectorResolveError::MissingField))
    );
}

#[test]
fn delr_and_selr_split_the_records() {
    let program = parse_selectors(&[b"NF".as_slice()], SelectorOptions::single_field(false)).unwrap();
    for record in [b"a done".as_slice(), b"b open".as_slice(), b"done".as_slice()] {
        let equal = selected_field_equals(&program, record, b"done").unwrap();
        assert_eq!(selr_keeps_record(&program, record, b"done"), Ok(equal));
        assert_eq!(delr_keeps_record(&program, record, b"done"), Ok(!equal));
    }
}
