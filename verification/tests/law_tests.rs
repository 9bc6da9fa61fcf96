use std::cmp::Ordering;
use std::io::Cursor;
use tukubai_core::delf::delete_fields;
use tukubai_core::field_filter::{delr_keeps_record, selr_keeps_record};
use tukubai_core::join0::{resolve_tran_key, step_master, JoinStep};
use tukubai_core::lcnt::count_records;
use tukubai_core::{
    compare_resolved_keys, normalize_key_positions_to_one, parse_key_program, parse_selectors,
    resolve_key, resolve_key_positions, resolve_key_with_positions, resolve_selector_positions,
    resolve_selectors, split_fields, FieldPosition, KeyAttr, KeyKind, KeyOptions, ResolvedItem,
    ResolvedKey, ResolvedKeyField, ResolvedKeyPosition, RecordReader, SelectorOptions,
};

fn split(record: &[u8]) -> Vec<&[u8]> {
    split_fields(record).collect()
}

fn key_of<'a>(fields: &[(&'a [u8], KeyAttr)]) -> ResolvedKey<'a> {
    let mut out = Vec::new();
    for (i, (bytes, attr)) in fields.iter().enumerate() {
        out.push(ResolvedKeyField {
            bytes,
            position: FieldPosition::from_one_based(i as u64 + 1),
            attr: *attr,
        });
    }
    ResolvedKey::new(out)
}

fn numeric() -> KeyAttr {
    KeyAttr { kind: KeyKind::Numeric, descending: false }
}

#[test]
fn space_separates_fields_and_edges_are_ignored() {
    assert_eq!(split(b"ab cd"), vec![b"ab".as_slice(), b"cd".as_slice()]);
    assert_eq!(split(b" ab cd "), split(b"ab cd"));
    assert_eq!(split(b"ab    cd"), split(b"ab cd"));
    assert_eq!(split(b"x\t\r\0"), vec![b"x\t\r\0".as_slice()]);
}

#[test]
fn joined_fields_split_back() {
    let fields = vec![b"a".as_slice(), b"\xffb".as_slice(), b"c\t".as_slice()];
    let joined = fields.join(&b' ');
    assert_eq!(split(&joined), fields);
}

#[test]
fn records_hold_no_lf_and_rebuild_the_input() {
    let input = b"alpha beta\n\ngamma\n".to_vec();
    let mut reader = RecordReader::new(Cursor::new(input.clone()));
    let mut rebuilt = Vec::new();
    while let Some(record) = reader.read_record().unwrap() {
        assert!(!record.contains(&b'\n'));
        rebuilt.extend_from_slice(record);
        rebuilt.push(b'\n');
    }
    assert_eq!(rebuilt, input);
}

#[test]
fn leading_zero_reads_as_the_same_selector() {
    let options = SelectorOptions::multi_field(false);
    let a = parse_selectors(&[b"007".as_slice()], options).unwrap();
    let b = parse_selectors(&[b"7".as_slice()], options).unwrap();
    assert_eq!(a.selectors(), b.selectors());
    let zero = parse_selectors(&[b"00".as_slice()], SelectorOptions::multi_field(true)).unwrap();
    assert_eq!(zero.selectors(), &[tukubai_core::Selector::RawRecord]);
    assert_eq!(
        parse_selectors(&[b"00".as_slice()], SelectorOptions::default()).unwrap_err(),
        tukubai_core::SelectorParseError::UnsupportedZero
    );
    assert_eq!(
        parse_selectors(&[b"2/000".as_slice()], SelectorOptions::multi_field(true)).unwrap_err(),
        tukubai_core::SelectorParseError::ZeroInRange
    );
}

#[test]
fn reversed_range_is_the_range_reversed() {
    let options = SelectorOptions::multi_field(false);
    let down = parse_selectors(&[b"5/2".as_slice()], options).unwrap();
    let up = parse_selectors(&[b"2/5".as_slice()], options).unwrap();
    let mut forward = resolve_selector_positions(&up, b"a b c d e").unwrap();
    forward.reverse();
    assert_eq!(resolve_selector_positions(&down, b"a b c d e").unwrap(), forward);
}

#[test]
fn selectors_resolve_in_order_with_duplicates() {
    let options = SelectorOptions::multi_field(false);
    let first = parse_selectors(&[b"3".as_slice(), b"1/2".as_slice()], options).unwrap();
    let second = parse_selectors(&[b"2".as_slice()], options).unwrap();
    let both = parse_selectors(&[b"3".as_slice(), b"1/2".as_slice(), b"2".as_slice()], options).unwrap();
    let mut joined = resolve_selector_positions(&first, b"a b c").unwrap();
    joined.extend(resolve_selector_positions(&second, b"a b c").unwrap());
    assert_eq!(resolve_selector_positions(&both, b"a b c").unwrap(), joined);
}

#[test]
fn items_are_the_fields_at_the_positions() {
    let program = parse_selectors(&[b"NF".as_slice(), b"1/2".as_slice()], SelectorOptions::multi_field(true)).unwrap();
    let record = b" p  q r ";
    let fields = split(record);
    let positions = resolve_selector_positions(&program, record).unwrap();
    let expected: Vec<ResolvedItem> = positions
        .iter()
        .map(|p| ResolvedItem::Field(fields[p.to_zero_based().unwrap()]))
        .collect();
    assert_eq!(resolve_selectors(&program, record).unwrap(), expected);
}

#[test]
fn key_resolves_like_its_positions() {
    let program = parse_key_program(b"NF@2n/1n", KeyOptions::default()).unwrap();
    let record = b"k1 k2 k3";
    let positions = resolve_key_positions(&program, record).unwrap();
    assert_eq!(
        resolve_key(&program, record).unwrap(),
        resolve_key_with_positions(&positions, record).unwrap()
    );
}

#[test]
fn normalized_positions_start_at_one_and_keep_distances() {
    let positions: Vec<ResolvedKeyPosition> = [7u64, 4, 9, 4]
        .iter()
        .map(|n| ResolvedKeyPosition {
            position: FieldPosition::from_one_based(*n),
            attr: KeyAttr::default(),
        })
        .collect();
    let numbers: Vec<u64> = normalize_key_positions_to_one(&positions)
        .iter()
        .map(|p| p.position.get())
        .collect();
    assert_eq!(numbers, vec![4, 1, 6, 1]);
}

#[test]
fn key_comparison_is_antisymmetric_and_reflexive() {
    let a = key_of(&[(b"abc".as_slice(), KeyAttr::default()), (b"-1.5".as_slice(), numeric())]);
    let b = key_of(&[(b"abc".as_slice(), KeyAttr::default()), (b"-1.25".as_slice(), numeric())]);
    assert_eq!(compare_resolved_keys(&a, &b).unwrap(), Ordering::Less);
    assert_eq!(compare_resolved_keys(&b, &a).unwrap(), Ordering::Greater);
    assert_eq!(compare_resolved_keys(&a, &a).unwrap(), Ordering::Equal);
}

#[test]
fn composite_keys_compare_first_element_first() {
    let a = key_of(&[(b"a".as_slice(), KeyAttr::default()), (b"z".as_slice(), KeyAttr::default())]);
    let b = key_of(&[(b"b".as_slice(), KeyAttr::default()), (b"a".as_slice(), KeyAttr::default())]);
    assert_eq!(compare_resolved_keys(&a, &b).unwrap(), Ordering::Less);
    let c = key_of(&[(b"a".as_slice(), KeyAttr::default()), (b"x".as_slice(), numeric())]);
    let d = key_of(&[(b"b".as_slice(), KeyAttr::default()), (b"y".as_slice(), numeric())]);
    assert_eq!(compare_resolved_keys(&c, &d).unwrap(), Ordering::Less);
}

#[test]
fn descending_reverses_each_element() {
    let up = KeyAttr { kind: KeyKind::Byte, descending: false };
    let down = KeyAttr { kind: KeyKind::Byte, descending: true };
    let a = key_of(&[(b"a".as_slice(), up)]);
    let b = key_of(&[(b"b".as_slice(), up)]);
    let ar = key_of(&[(b"a".as_slice(), down)]);
    let br = key_of(&[(b"b".as_slice(), down)]);
    assert_eq!(
        compare_resolved_keys(&ar, &br).unwrap(),
        compare_resolved_keys(&a, &b).unwrap().reverse()
    );
}

#[test]
fn numbers_compare_by_value() {
    let a = key_of(&[(b"0012.500".as_slice(), numeric())]);
    let b = key_of(&[(b"12.5".as_slice(), numeric())]);
    assert_eq!(compare_resolved_keys(&a, &b).unwrap(), Ordering::Equal);
    let c = key_of(&[(b".5".as_slice(), numeric())]);
    let d = key_of(&[(b"0.50".as_slice(), numeric())]);
    assert_eq!(compare_resolved_keys(&c, &d).unwrap(), Ordering::Equal);
    let e = key_of(&[(b"9".as_slice(), numeric())]);
    let f = key_of(&[(b"10".as_slice(), numeric())]);
    assert_eq!(compare_resolved_keys(&e, &f).unwrap(), Ordering::Less);
}

#[test]
fn zero_is_zero_whatever_its_sign() {
    let zero = key_of(&[(b"0".as_slice(), numeric())]);
    for other in [b"-0".as_slice(), b"+0.0".as_slice(), b"-.00".as_slice(), b"000".as_slice()] {
        let key = key_of(&[(other, numeric())]);
        assert_eq!(compare_resolved_keys(&key, &zero).unwrap(), Ordering::Equal);
        assert_eq!(compare_resolved_keys(&zero, &key).unwrap(), Ordering::Equal);
    }
    let below = key_of(&[(b"-0.001".as_slice(), numeric())]);
    assert_eq!(compare_resolved_keys(&below, &zero).unwrap(), Ordering::Less);
}

#[test]
fn deleted_fields_split_back_into_the_kept_ones() {
    let program = parse_selectors(&[b"2".as_slice(), b"2".as_slice(), b"NF".as_slice()], SelectorOptions::multi_field(false)).unwrap();
    let out = delete_fields(&program, b" a  b c   d ").unwrap();
    assert_eq!(split(&out), vec![b"a".as_slice(), b"c".as_slice()]);
}

#[test]
fn count_is_the_number_of_lf_bytes() {
    let input = b"one\ntwo three\n\n".to_vec();
    let lfs = input.iter().filter(|b| **b == b'\n').count() as u64;
    let mut reader = RecordReader::new(Cursor::new(input));
    assert_eq!(count_records(&mut reader).unwrap(), lfs);
}

#[test]
fn selected_fields_split_back() {
    let program = parse_selectors(&[b"3".as_slice(), b"1/2".as_slice()], SelectorOptions::multi_field(true)).unwrap();
    let out = tukubai_core::select::select_fields(&program, b" x  y z ").unwrap();
    assert_eq!(split(&out), vec![b"z".as_slice(), b"x".as_slice(), b"y".as_slice()]);
}

#[test]
fn key_order_is_transitive() {
    let a = key_of(&[(b"-3".as_slice(), numeric()), (b"b".as_slice(), KeyAttr::default())]);
    let b = key_of(&[(b"-3.0".as_slice(), numeric()), (b"c".as_slice(), KeyAttr::default())]);
    let c = key_of(&[(b"0".as_slice(), numeric()), (b"a".as_slice(), KeyAttr::default())]);
    assert_eq!(compare_resolved_keys(&a, &b).unwrap(), Ordering::Less);
    assert_eq!(compare_resolved_keys(&b, &c).unwrap(), Ordering::Less);
    assert_eq!(compare_resolved_keys(&a, &c).unwrap(), Ordering::Less);
}

#[test]
fn passed_master_records_stay_behind_later_transactions() {
    let program = parse_key_program(b"1n", KeyOptions::default()).unwrap();
    let first = resolve_tran_key(&program, b"5").unwrap();
    let later = resolve_tran_key(&program, b"7").unwrap();
    let master: &[u8] = b"3";
    assert_eq!(step_master(&first.master_positions, Some(master), &first.key), Ok(JoinStep::Advance));
    assert_eq!(step_master(&later.master_positions, Some(master), &later.key), Ok(JoinStep::Advance));
}

#[test]
fn delr_and_selr_keep_complementary_records() {
    let program = parse_selectors(&[b"1".as_slice()], SelectorOptions::single_field(false)).unwrap();
    for record in [b"a x".as_slice(), b"b y".as_slice()] {
        assert_eq!(
            delr_keeps_record(&program, record, b"a").unwrap(),
            !selr_keeps_record(&program, record, b"a").unwrap()
        );
    }
}

#[test]
fn join_matches_exactly_the_keys_present_in_the_master() {
    let program = parse_key_program(b"1n", KeyOptions::default()).unwrap();
    let master: Vec<&[u8]> = vec![b"1 a", b"3 b", b"5 c"];
    let trans: Vec<&[u8]> = vec![b"1", b"2", b"3", b"3", b"5", b"6"];
    let mut cursor = 0;
    let mut matched = Vec::new();
    for tran in &trans {
        let key = resolve_tran_key(&program, tran).unwrap();
        let found = loop {
            match step_master(&key.master_positions, master.get(cursor).copied(), &key.key).unwrap() {
                JoinStep::Advance => cursor += 1,
                JoinStep::Matched => break true,
                JoinStep::Unmatched => break false,
            }
        };
        matched.push(found);
    }
    assert_eq!(matched, vec![true, false, true, true, true, false]);
}
