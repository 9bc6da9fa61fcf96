use std::cmp::Ordering;
use tukubai_core::{
    compare_resolved_keys, normalize_key_positions_to_one, parse_key_program, resolve_key,
    resolve_key_positions, resolve_key_with_positions, FieldPosition, KeyAttr, KeyCompareError,
    KeyField, KeyFieldExpr, KeyItem, KeyKind, KeyOptions, KeyParseError, KeyResolveError,
    ResolvedKey, ResolvedKeyField, ResolvedKeyPosition,
};

#[test]
fn parses_single_fields_with_attributes() {
    let program = parse_key_program(b"2@NFn@3r@NF-1nr", KeyOptions::default()).unwrap();

    assert_eq!(
        program.items(),
        &[
            KeyItem::Field(KeyField {
                expr: KeyFieldExpr::FieldNumber(2),
                attr: KeyAttr {
                    kind: KeyKind::Byte,
                    descending: false,
                },
            }),
            KeyItem::Field(KeyField {
                expr: KeyFieldExpr::LastField,
                attr: KeyAttr {
                    kind: KeyKind::Numeric,
                    descending: false,
                },
            }),
            KeyItem::Field(KeyField {
                expr: KeyFieldExpr::FieldNumber(3),
                attr: KeyAttr {
                    kind: KeyKind::Byte,
                    descending: true,
                },
            }),
            KeyItem::Field(KeyField {
                expr: KeyFieldExpr::LastFieldMinus(1),
                attr: KeyAttr {
                    kind: KeyKind::Numeric,
                    descending: true,
                },
            }),
        ]
    );
}

#[test]
fn parses_ranges_and_composite_keys() {
    let program = parse_key_program(b"1/2@4/5", KeyOptions::default()).unwrap();

    assert_eq!(
        program.items(),
        &[
            KeyItem::Range(
                KeyFieldExpr::FieldNumber(1),
                KeyFieldExpr::FieldNumber(2),
                KeyAttr {
                    kind: KeyKind::Byte,
                    descending: false,
                },
            ),
            KeyItem::Range(
                KeyFieldExpr::FieldNumber(4),
                KeyFieldExpr::FieldNumber(5),
                KeyAttr {
                    kind: KeyKind::Byte,
                    descending: false,
                },
            ),
        ]
    );
}

#[test]
fn parses_numeric_and_descending_ranges() {
    let program = parse_key_program(b"2n/NFn@4nr/2nr", KeyOptions::default()).unwrap();

    assert_eq!(
        program.items(),
        &[
            KeyItem::Range(
                KeyFieldExpr::FieldNumber(2),
                KeyFieldExpr::LastField,
                KeyAttr {
                    kind: KeyKind::Numeric,
                    descending: false,
                },
            ),
            KeyItem::Range(
                KeyFieldExpr::FieldNumber(4),
                KeyFieldExpr::FieldNumber(2),
                KeyAttr {
                    kind: KeyKind::Numeric,
                    descending: true,
                },
            ),
        ]
    );
}

#[test]
fn rejects_mixed_range_attributes() {
    for input in [
        b"2/NFn".as_slice(),
        b"2/NFr".as_slice(),
        b"2n/NFr".as_slice(),
    ] {
        let error = parse_key_program(input, KeyOptions::default()).unwrap_err();
        assert_eq!(error, KeyParseError::MixedRangeAttributes);
    }
}

#[test]
fn rejects_invalid_key_syntax() {
    for input in [
        b"".as_slice(),
        b"@".as_slice(),
        b"1@@2".as_slice(),
        b"/2".as_slice(),
        b"3/".as_slice(),
        b"nf".as_slice(),
        b"NF+1".as_slice(),
        b"+5".as_slice(),
        b"1@".as_slice(),
    ] {
        let error = parse_key_program(input, KeyOptions::default()).unwrap_err();
        if input.is_empty() {
            assert_eq!(error, KeyParseError::Empty);
        } else {
            assert_eq!(error, KeyParseError::InvalidSyntax);
        }
    }
}

#[test]
fn rejects_zero_selectors() {
    let error = parse_key_program(b"0", KeyOptions::default()).unwrap_err();
    assert_eq!(error, KeyParseError::UnsupportedZero);

    let error = parse_key_program(b"0/3", KeyOptions::default()).unwrap_err();
    assert_eq!(error, KeyParseError::ZeroInRange);
}

#[test]
fn rejects_numeric_when_disabled() {
    let error = parse_key_program(
        b"2n@NF",
        KeyOptions {
            allow_numeric: false,
            allow_descending: true,
        },
    )
    .unwrap_err();

    assert_eq!(error, KeyParseError::UnsupportedNumeric);
}

#[test]
fn rejects_descending_when_disabled() {
    let error = parse_key_program(
        b"2r@NF",
        KeyOptions {
            allow_numeric: true,
            allow_descending: false,
        },
    )
    .unwrap_err();

    assert_eq!(error, KeyParseError::UnsupportedDescending);
}

#[test]
fn resolves_key_positions_for_fields_and_ranges() {
    let program = parse_key_program(b"2@NF-1/NF", KeyOptions::default()).unwrap();

    let positions = resolve_key_positions(&program, b"a b c d").unwrap();

    assert_eq!(
        positions,
        vec![
            ResolvedKeyPosition {
                position: FieldPosition::from_one_based(2),
                attr: KeyAttr {
                    kind: KeyKind::Byte,
                    descending: false,
                },
            },
            ResolvedKeyPosition {
                position: FieldPosition::from_one_based(3),
                attr: KeyAttr {
                    kind: KeyKind::Byte,
                    descending: false,
                },
            },
            ResolvedKeyPosition {
                position: FieldPosition::from_one_based(4),
                attr: KeyAttr {
                    kind: KeyKind::Byte,
                    descending: false,
                },
            },
        ]
    );
}

#[test]
fn resolves_reverse_ranges_in_key_order() {
    let program = parse_key_program(b"4/2@NFr", KeyOptions::default()).unwrap();

    let positions = resolve_key_positions(&program, b"a b c d e").unwrap();

    assert_eq!(
        positions,
        vec![
            ResolvedKeyPosition {
                position: FieldPosition::from_one_based(4),
                attr: KeyAttr {
                    kind: KeyKind::Byte,
                    descending: false,
                },
            },
            ResolvedKeyPosition {
                position: FieldPosition::from_one_based(3),
                attr: KeyAttr {
                    kind: KeyKind::Byte,
                    descending: false,
                },
            },
            ResolvedKeyPosition {
                position: FieldPosition::from_one_based(2),
                attr: KeyAttr {
                    kind: KeyKind::Byte,
                    descending: false,
                },
            },
            ResolvedKeyPosition {
                position: FieldPosition::from_one_based(5),
                attr: KeyAttr {
                    kind: KeyKind::Byte,
                    descending: true,
                },
            },
        ]
    );
}

#[test]
fn rejects_missing_field_during_position_resolution() {
    let program = parse_key_program(b"3", KeyOptions::default()).unwrap();
    let error = resolve_key_positions(&program, b"a b").unwrap_err();
    assert_eq!(error, KeyResolveError::MissingField);
}

#[test]
fn key_rejects_nf_minus_when_it_resolves_to_zero() {
    let program = parse_key_program(b"NF-3", KeyOptions::default()).unwrap();
    let error = resolve_key_positions(&program, b"a b c").unwrap_err();
    assert_eq!(error, KeyResolveError::NfResolvedToZero);
}

#[test]
fn rejects_empty_record_for_key_resolution() {
    let program = parse_key_program(b"NF", KeyOptions::default()).unwrap();
    let error = resolve_key_positions(&program, b"").unwrap_err();
    assert_eq!(error, KeyResolveError::MissingField);
}

#[test]
fn resolves_key_values_in_key_order() {
    let program = parse_key_program(b"2@NF-1/NF", KeyOptions::default()).unwrap();

    let resolved = resolve_key(&program, b"a b c d").unwrap();

    assert_eq!(
        resolved,
        ResolvedKey::new(vec![
            ResolvedKeyField {
                bytes: &b"b"[..],
                position: FieldPosition::from_one_based(2),
                attr: KeyAttr {
                    kind: KeyKind::Byte,
                    descending: false,
                },
            },
            ResolvedKeyField {
                bytes: &b"c"[..],
                position: FieldPosition::from_one_based(3),
                attr: KeyAttr {
                    kind: KeyKind::Byte,
                    descending: false,
                },
            },
            ResolvedKeyField {
                bytes: &b"d"[..],
                position: FieldPosition::from_one_based(4),
                attr: KeyAttr {
                    kind: KeyKind::Byte,
                    descending: false,
                },
            },
        ])
    );
}

#[test]
fn resolves_reverse_ranges_with_values() {
    let program = parse_key_program(b"4/2@NFr", KeyOptions::default()).unwrap();

    let resolved = resolve_key(&program, b"a b c d e").unwrap();

    assert_eq!(
        resolved,
        ResolvedKey::new(vec![
            ResolvedKeyField {
                bytes: &b"d"[..],
                position: FieldPosition::from_one_based(4),
                attr: KeyAttr {
                    kind: KeyKind::Byte,
                    descending: false,
                },
            },
            ResolvedKeyField {
                bytes: &b"c"[..],
                position: FieldPosition::from_one_based(3),
                attr: KeyAttr {
                    kind: KeyKind::Byte,
                    descending: false,
                },
            },
            ResolvedKeyField {
                bytes: &b"b"[..],
                position: FieldPosition::from_one_based(2),
                attr: KeyAttr {
                    kind: KeyKind::Byte,
                    descending: false,
                },
            },
            ResolvedKeyField {
                bytes: &b"e"[..],
                position: FieldPosition::from_one_based(5),
                attr: KeyAttr {
                    kind: KeyKind::Byte,
                    descending: true,
                },
            },
        ])
    );
}

#[test]
fn resolves_key_values_from_precomputed_positions() {
    let positions = vec![
        ResolvedKeyPosition {
            position: FieldPosition::from_one_based(1),
            attr: KeyAttr {
                kind: KeyKind::Byte,
                descending: false,
            },
        },
        ResolvedKeyPosition {
            position: FieldPosition::from_one_based(3),
            attr: KeyAttr {
                kind: KeyKind::Numeric,
                descending: true,
            },
        },
    ];

    let resolved = resolve_key_with_positions(&positions, b"x y 10").unwrap();

    assert_eq!(
        resolved,
        ResolvedKey::new(vec![
            ResolvedKeyField {
                bytes: &b"x"[..],
                position: FieldPosition::from_one_based(1),
                attr: KeyAttr {
                    kind: KeyKind::Byte,
                    descending: false,
                },
            },
            ResolvedKeyField {
                bytes: &b"10"[..],
                position: FieldPosition::from_one_based(3),
                attr: KeyAttr {
                    kind: KeyKind::Numeric,
                    descending: true,
                },
            },
        ])
    );
}

#[test]
fn rejects_missing_field_during_key_value_resolution() {
    let program = parse_key_program(b"3", KeyOptions::default()).unwrap();
    let error = resolve_key(&program, b"a b").unwrap_err();
    assert_eq!(error, KeyResolveError::MissingField);
}

#[test]
fn rejects_missing_field_during_position_based_resolution() {
    let positions = vec![ResolvedKeyPosition {
        position: FieldPosition::from_one_based(3),
        attr: KeyAttr {
            kind: KeyKind::Byte,
            descending: false,
        },
    }];

    let error = resolve_key_with_positions(&positions, b"a b").unwrap_err();
    assert_eq!(error, KeyResolveError::MissingField);
}

#[test]
fn compares_byte_keys_lexicographically() {
    let left = ResolvedKey::new(vec![
        ResolvedKeyField {
            bytes: &b"a"[..],
            position: FieldPosition::from_one_based(1),
            attr: KeyAttr::default(),
        },
        ResolvedKeyField {
            bytes: &b"z"[..],
            position: FieldPosition::from_one_based(2),
            attr: KeyAttr::default(),
        },
    ]);
    let right = ResolvedKey::new(vec![
        ResolvedKeyField {
            bytes: &b"a"[..],
            position: FieldPosition::from_one_based(1),
            attr: KeyAttr::default(),
        },
        ResolvedKeyField {
            bytes: &b"zz"[..],
            position: FieldPosition::from_one_based(2),
            attr: KeyAttr::default(),
        },
    ]);

    assert_eq!(
        compare_resolved_keys(&left, &right).unwrap(),
        Ordering::Less
    );
}

#[test]
fn compares_numeric_keys_by_value() {
    let left = ResolvedKey::new(vec![ResolvedKeyField {
        bytes: &b"001.20"[..],
        position: FieldPosition::from_one_based(1),
        attr: KeyAttr {
            kind: KeyKind::Numeric,
            descending: false,
        },
    }]);
    let right = ResolvedKey::new(vec![ResolvedKeyField {
        bytes: &b"1.2"[..],
        position: FieldPosition::from_one_based(1),
        attr: KeyAttr {
            kind: KeyKind::Numeric,
            descending: false,
        },
    }]);

    assert_eq!(
        compare_resolved_keys(&left, &right).unwrap(),
        Ordering::Equal
    );
}

#[test]
fn compares_negative_numeric_keys() {
    let left = ResolvedKey::new(vec![ResolvedKeyField {
        bytes: &b"-2"[..],
        position: FieldPosition::from_one_based(1),
        attr: KeyAttr {
            kind: KeyKind::Numeric,
            descending: false,
        },
    }]);
    let right = ResolvedKey::new(vec![ResolvedKeyField {
        bytes: &b"-10"[..],
        position: FieldPosition::from_one_based(1),
        attr: KeyAttr {
            kind: KeyKind::Numeric,
            descending: false,
        },
    }]);

    assert_eq!(
        compare_resolved_keys(&left, &right).unwrap(),
        Ordering::Greater
    );
}

#[test]
fn reverses_order_for_descending_keys() {
    let left = ResolvedKey::new(vec![ResolvedKeyField {
        bytes: &b"2"[..],
        position: FieldPosition::from_one_based(1),
        attr: KeyAttr {
            kind: KeyKind::Numeric,
            descending: true,
        },
    }]);
    let right = ResolvedKey::new(vec![ResolvedKeyField {
        bytes: &b"10"[..],
        position: FieldPosition::from_one_based(1),
        attr: KeyAttr {
            kind: KeyKind::Numeric,
            descending: true,
        },
    }]);

    assert_eq!(
        compare_resolved_keys(&left, &right).unwrap(),
        Ordering::Greater
    );
}

#[test]
fn key_rejects_invalid_numeric_value_during_comparison() {
    let left = ResolvedKey::new(vec![ResolvedKeyField {
        bytes: &b"1e3"[..],
        position: FieldPosition::from_one_based(1),
        attr: KeyAttr {
            kind: KeyKind::Numeric,
            descending: false,
        },
    }]);
    let right = ResolvedKey::new(vec![ResolvedKeyField {
        bytes: &b"1000"[..],
        position: FieldPosition::from_one_based(1),
        attr: KeyAttr {
            kind: KeyKind::Numeric,
            descending: false,
        },
    }]);

    let error = compare_resolved_keys(&left, &right).unwrap_err();
    assert_eq!(error, KeyCompareError::InvalidNumericValue);
}

#[test]
fn rejects_key_length_mismatch_during_comparison() {
    let left = ResolvedKey::new(vec![ResolvedKeyField {
        bytes: &b"a"[..],
        position: FieldPosition::from_one_based(1),
        attr: KeyAttr::default(),
    }]);
    let right = ResolvedKey::new(vec![
        ResolvedKeyField {
            bytes: &b"a"[..],
            position: FieldPosition::from_one_based(1),
            attr: KeyAttr::default(),
        },
        ResolvedKeyField {
            bytes: &b"b"[..],
            position: FieldPosition::from_one_based(2),
            attr: KeyAttr::default(),
        },
    ]);

    let error = compare_resolved_keys(&left, &right).unwrap_err();
    assert_eq!(error, KeyCompareError::KeyLengthMismatch);
}

#[test]
fn normalizes_key_positions_to_one_based_origin() {
    let positions = vec![
        ResolvedKeyPosition {
            position: FieldPosition::from_one_based(3),
            attr: KeyAttr {
                kind: KeyKind::Byte,
                descending: false,
            },
        },
        ResolvedKeyPosition {
            position: FieldPosition::from_one_based(5),
            attr: KeyAttr {
                kind: KeyKind::Numeric,
                descending: true,
            },
        },
        ResolvedKeyPosition {
            position: FieldPosition::from_one_based(4),
            attr: KeyAttr {
                kind: KeyKind::Byte,
                descending: false,
            },
        },
    ];

    assert_eq!(
        normalize_key_positions_to_one(&positions),
        vec![
            ResolvedKeyPosition {
                position: FieldPosition::from_one_based(1),
                attr: KeyAttr {
                    kind: KeyKind::Byte,
                    descending: false,
                },
            },
            ResolvedKeyPosition {
                position: FieldPosition::from_one_based(3),
                attr: KeyAttr {
                    kind: KeyKind::Numeric,
                    descending: true,
                },
            },
            ResolvedKeyPosition {
                position: FieldPosition::from_one_based(2),
                attr: KeyAttr {
                    kind: KeyKind::Byte,
                    descending: false,
                },
            },
        ]
    );
}

#[test]
fn normalizes_empty_position_list_to_empty() {
    assert!(normalize_key_positions_to_one(&[]).is_empty());
}
