use tukubai_core::{
    parse_selectors, resolve_selector_positions, resolve_selectors, FieldPosition, ResolvedItem,
    Selector, SelectorExpr, SelectorOptions, SelectorParseError, SelectorResolveError,
};

#[test]
fn parses_basic_selectors() {
    let program = parse_selectors(
        &[
            b"1".as_slice(),
            b"01".as_slice(),
            b"NF".as_slice(),
            b"NF-0".as_slice(),
        ],
        SelectorOptions::multi_field(true),
    )
    .unwrap();

    assert_eq!(
        program.selectors(),
        &[
            Selector::FieldNumber(1),
            Selector::FieldNumber(1),
            Selector::LastField,
            Selector::LastFieldMinus(0),
        ]
    );
}

#[test]
fn parses_ranges() {
    let program = parse_selectors(
        &[b"NF-1/NF".as_slice(), b"5/2".as_slice()],
        SelectorOptions::multi_field(true),
    )
    .unwrap();

    assert_eq!(
        program.selectors(),
        &[
            Selector::Range(SelectorExpr::LastFieldMinus(1), SelectorExpr::LastField),
            Selector::Range(SelectorExpr::FieldNumber(5), SelectorExpr::FieldNumber(2)),
        ]
    );
}

#[test]
fn rejects_zero_when_disabled() {
    let error = parse_selectors(&[b"0".as_slice()], SelectorOptions::default()).unwrap_err();
    assert_eq!(error, SelectorParseError::UnsupportedZero);
}

#[test]
fn rejects_ranges_when_disabled() {
    let error =
        parse_selectors(&[b"1/2".as_slice()], SelectorOptions::single_field(false)).unwrap_err();
    assert_eq!(error, SelectorParseError::UnsupportedRange);
}

#[test]
fn rejects_zero_inside_range() {
    let error =
        parse_selectors(&[b"0/3".as_slice()], SelectorOptions::multi_field(true)).unwrap_err();
    assert_eq!(error, SelectorParseError::ZeroInRange);
}

#[test]
fn selector_rejects_invalid_selector_syntax() {
    for input in [
        b"nf".as_slice(),
        b"NF+1".as_slice(),
        b"1+2".as_slice(),
        b"4-3".as_slice(),
        b"+5".as_slice(),
        b"/5".as_slice(),
        b"3/".as_slice(),
    ] {
        let error = parse_selectors(&[input], SelectorOptions::multi_field(true)).unwrap_err();
        assert_eq!(error, SelectorParseError::InvalidSyntax);
    }
}

#[test]
fn resolves_fields_and_raw_record_in_selector_order() {
    let program = parse_selectors(
        &[b"2".as_slice(), b"0".as_slice(), b"NF".as_slice()],
        SelectorOptions::multi_field(true),
    )
    .unwrap();

    let resolved = resolve_selectors(&program, b"alpha beta gamma").unwrap();

    assert_eq!(
        resolved,
        vec![
            ResolvedItem::Field(&b"beta"[..]),
            ResolvedItem::RawRecord(&b"alpha beta gamma"[..]),
            ResolvedItem::Field(&b"gamma"[..]),
        ]
    );
}

#[test]
fn resolves_reverse_ranges() {
    let program =
        parse_selectors(&[b"5/2".as_slice()], SelectorOptions::multi_field(true)).unwrap();

    let resolved = resolve_selectors(&program, b"a b c d e").unwrap();

    assert_eq!(
        resolved,
        vec![
            ResolvedItem::Field(&b"e"[..]),
            ResolvedItem::Field(&b"d"[..]),
            ResolvedItem::Field(&b"c"[..]),
            ResolvedItem::Field(&b"b"[..]),
        ]
    );
}

#[test]
fn preserves_duplicate_fields() {
    let program = parse_selectors(
        &[b"2".as_slice(), b"2/4".as_slice(), b"3".as_slice()],
        SelectorOptions::multi_field(true),
    )
    .unwrap();

    let resolved = resolve_selectors(&program, b"a b c d").unwrap();

    assert_eq!(
        resolved,
        vec![
            ResolvedItem::Field(&b"b"[..]),
            ResolvedItem::Field(&b"b"[..]),
            ResolvedItem::Field(&b"c"[..]),
            ResolvedItem::Field(&b"d"[..]),
            ResolvedItem::Field(&b"c"[..]),
        ]
    );
}

#[test]
fn resolves_positions_in_selector_order() {
    let program = parse_selectors(
        &[b"2".as_slice(), b"NF-1/NF".as_slice(), b"2".as_slice()],
        SelectorOptions::default(),
    )
    .unwrap();

    let resolved = resolve_selector_positions(&program, b"a b c d").unwrap();

    assert_eq!(
        resolved,
        vec![
            FieldPosition::from_one_based(2),
            FieldPosition::from_one_based(3),
            FieldPosition::from_one_based(4),
            FieldPosition::from_one_based(2),
        ]
    );
}

#[test]
fn resolves_reverse_range_positions() {
    let program = parse_selectors(&[b"5/2".as_slice()], SelectorOptions::default()).unwrap();

    let resolved = resolve_selector_positions(&program, b"a b c d e").unwrap();

    assert_eq!(
        resolved,
        vec![
            FieldPosition::from_one_based(5),
            FieldPosition::from_one_based(4),
            FieldPosition::from_one_based(3),
            FieldPosition::from_one_based(2),
        ]
    );
}

#[test]
fn rejects_zero_for_position_resolution() {
    let program =
        parse_selectors(&[b"0".as_slice()], SelectorOptions::multi_field(true)).unwrap();

    let error = resolve_selector_positions(&program, b"a b").unwrap_err();
    assert_eq!(error, SelectorResolveError::UnsupportedZero);
}

#[test]
fn field_position_converts_to_zero_based() {
    let position = FieldPosition::from_one_based(3);

    assert_eq!(position.get(), 3);
    assert_eq!(position.to_zero_based(), Some(2));
}

#[test]
fn allows_empty_record_only_for_zero() {
    let zero_program =
        parse_selectors(&[b"0".as_slice()], SelectorOptions::multi_field(true)).unwrap();
    let resolved = resolve_selectors(&zero_program, b"").unwrap();
    assert_eq!(resolved, vec![ResolvedItem::RawRecord(&b""[..])]);

    let field_program =
        parse_selectors(&[b"1".as_slice()], SelectorOptions::multi_field(true)).unwrap();
    let error = resolve_selectors(&field_program, b"").unwrap_err();
    assert_eq!(error, SelectorResolveError::MissingField);
}

#[test]
fn selector_rejects_nf_minus_when_it_resolves_to_zero() {
    let program =
        parse_selectors(&[b"NF-3".as_slice()], SelectorOptions::multi_field(true)).unwrap();

    let error = resolve_selectors(&program, b"a b c").unwrap_err();
    assert_eq!(error, SelectorResolveError::NfResolvedToZero);
}

#[test]
fn rejects_missing_fields() {
    let program = parse_selectors(
        &[b"NF-4".as_slice(), b"4".as_slice()],
        SelectorOptions::multi_field(true),
    )
    .unwrap();

    let error = resolve_selectors(&program, b"a b c").unwrap_err();
    assert_eq!(error, SelectorResolveError::MissingField);
}
