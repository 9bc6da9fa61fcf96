//! Sort and join keys: `@`-separated items, each a field expression (`<n>`,
//! `NF`, `NF-<n>`) or an inclusive range `<expr>/<expr>`, with an optional
//! suffix `n` (numeric), `r` (descending) or `nr` (both).
use std::cmp::Ordering;
use vstd::prelude::*;

use crate::decimal::{
    compare_bytes, compare_numeric_bytes, decimal_spec, lemma_lex_sign_antisymmetric,
    lemma_lex_sign_reflexive, lemma_lex_sign_transitive, lemma_numeric_sign_antisymmetric,
    lemma_numeric_sign_reflexive, lemma_numeric_sign_transitive, lex_sign, numeric_sign,
};
use crate::digits::{all_digits, is_all_digits, number_spec, parse_u64_digits, NumberError};
use crate::fields::{fields_of, slice_views, split_fields};
use crate::selector::{
    find_byte, first_index_of, has_prefix, lemma_first_index_of, nf_minus_prefix, nf_token,
    prepend_ok, push_range, range_positions, u64_views, is_zero_token, is_zero_digits, FieldPosition,
};

verus! {

/// Which key attributes a command accepts.
#[derive(Clone, Copy, Debug, Eq, PartialEq)]
pub struct KeyOptions {
    pub allow_numeric: bool,
    pub allow_descending: bool,
}

impl KeyOptions {
    /// Options that accept every attribute.
    pub fn unrestricted() -> (o: Self)
        ensures
            o == (KeyOptions { allow_numeric: true, allow_descending: true }),
    {
        KeyOptions { allow_numeric: true, allow_descending: true }
    }
}

impl Default for KeyOptions {
    fn default() -> (o: Self)
        ensures
            o == (KeyOptions { allow_numeric: true, allow_descending: true }),
    {
        Self::unrestricted()
    }
}

/// How a key field is compared: byte by byte, or as a decimal number.
#[derive(Clone, Copy, Debug, Eq, PartialEq, Structural)]
pub enum KeyKind {
    Byte,
    Numeric,
}

/// The comparison attributes of one key field.
#[derive(Clone, Copy, Debug, Eq, PartialEq, Structural)]
pub struct KeyAttr {
    pub kind: KeyKind,
    pub descending: bool,
}

impl Default for KeyAttr {
    fn default() -> (a: Self)
        ensures
            a == (KeyAttr { kind: KeyKind::Byte, descending: false }),
    {
        KeyAttr { kind: KeyKind::Byte, descending: false }
    }
}

/// A parsed key: its items in key order.
#[derive(Clone, Debug, Eq, PartialEq)]
pub struct KeyProgram {
    items: Vec<KeyItem>,
}

impl View for KeyProgram {
    type V = Seq<KeyItem>;

    closed spec fn view(&self) -> Seq<KeyItem> {
        self.items@
    }
}

impl KeyProgram {
    pub fn new(items: Vec<KeyItem>) -> (p: Self)
        ensures
            p@ == items@,
    {
        KeyProgram { items }
    }

    pub fn items(&self) -> (s: &[KeyItem])
        ensures
            s@ == self@,
    {
        self.items.as_slice()
    }
}

/// One `@`-separated key item.
#[derive(Clone, Debug, Eq, PartialEq)]
pub enum KeyItem {
    Field(KeyField),
    Range(KeyFieldExpr, KeyFieldExpr, KeyAttr),
}

/// A single key field with its attributes.
#[derive(Clone, Debug, Eq, PartialEq)]
pub struct KeyField {
    pub expr: KeyFieldExpr,
    pub attr: KeyAttr,
}

/// A field expression of a key.
#[derive(Clone, Debug, Eq, PartialEq)]
pub enum KeyFieldExpr {
    FieldNumber(u64),
    LastField,
    LastFieldMinus(u64),
}

#[derive(Debug, Eq, PartialEq)]
pub enum KeyParseError {
    Empty,
    InvalidSyntax,
    InvalidNumber,
    UnsupportedNumeric,
    UnsupportedDescending,
    UnsupportedZero,
    ZeroInRange,
    MixedRangeAttributes,
}

impl KeyParseError {
    /// The message a command reports for this error.
    pub fn message(&self) -> (m: &'static str)
        ensures
            m@ == match self {
                KeyParseError::Empty => "empty key is not allowed"@,
                KeyParseError::InvalidSyntax => "invalid key syntax"@,
                KeyParseError::InvalidNumber => "invalid key number"@,
                KeyParseError::UnsupportedNumeric => "numeric comparison is not supported by this command"@,
                KeyParseError::UnsupportedDescending => "descending sort order is not supported by this command"@,
                KeyParseError::UnsupportedZero => "selector 0 is not supported in key syntax"@,
                KeyParseError::ZeroInRange => "selector 0 must not appear inside a key range"@,
                KeyParseError::MixedRangeAttributes => "range endpoints must use the same comparison attributes"@,
            },
    {
        match self {
            KeyParseError::Empty => "empty key is not allowed",
            KeyParseError::InvalidSyntax => "invalid key syntax",
            KeyParseError::InvalidNumber => "invalid key number",
            KeyParseError::UnsupportedNumeric => "numeric comparison is not supported by this command",
            KeyParseError::UnsupportedDescending => "descending sort order is not supported by this command",
            KeyParseError::UnsupportedZero => "selector 0 is not supported in key syntax",
            KeyParseError::ZeroInRange => "selector 0 must not appear inside a key range",
            KeyParseError::MixedRangeAttributes => "range endpoints must use the same comparison attributes",
        }
    }
}

#[derive(Debug, Eq, PartialEq)]
pub enum KeyResolveError {
    MissingField,
    NfResolvedToZero,
}

impl KeyResolveError {
    /// The message a command reports for this error.
    pub fn message(&self) -> (m: &'static str)
        ensures
            m@ == match self {
                KeyResolveError::MissingField => "key resolved to a non-existent field"@,
                KeyResolveError::NfResolvedToZero => "key expression NF-<n> resolved to field 0"@,
            },
    {
        match self {
            KeyResolveError::MissingField => "key resolved to a non-existent field",
            KeyResolveError::NfResolvedToZero => "key expression NF-<n> resolved to field 0",
        }
    }
}

#[derive(Debug, Eq, PartialEq)]
pub enum KeyCompareError {
    InvalidNumericValue,
    KeyLengthMismatch,
}

impl KeyCompareError {
    /// The message a command reports for this error.
    pub fn message(&self) -> (m: &'static str)
        ensures
            m@ == match self {
                KeyCompareError::InvalidNumericValue => "numeric key field is not a valid decimal number"@,
                KeyCompareError::KeyLengthMismatch => "resolved keys have different lengths and cannot be compared"@,
            },
    {
        match self {
            KeyCompareError::InvalidNumericValue => "numeric key field is not a valid decimal number",
            KeyCompareError::KeyLengthMismatch => "resolved keys have different lengths and cannot be compared",
        }
    }
}

// ---------------------------------------------------------------------------
// Syntax
// ---------------------------------------------------------------------------

/// The byte that separates key items.
pub const AT: u8 = 0x40;

/// The byte that separates the endpoints of a range.
pub const SLASH: u8 = 0x2F;

/// The suffix letter `n` (numeric).
pub const SUFFIX_N: u8 = 0x6E;

/// The suffix letter `r` (descending).
pub const SUFFIX_R: u8 = 0x72;

pub open spec fn map_key_number_error(e: NumberError) -> KeyParseError {
    match e {
        NumberError::NotDigits => KeyParseError::InvalidSyntax,
        NumberError::TooLarge => KeyParseError::InvalidNumber,
    }
}

/// What a field expression (no suffix, no `/`) parses to.
pub open spec fn key_expr_spec(s: Seq<u8>) -> Result<KeyFieldExpr, KeyParseError> {
    if s.len() == 0 {
        Err(KeyParseError::InvalidSyntax)
    } else if is_zero_token(s) {
        Err(KeyParseError::UnsupportedZero)
    } else if s == nf_token() {
        Ok(KeyFieldExpr::LastField)
    } else if has_prefix(s, nf_minus_prefix()) {
        let rest = s.skip(3);
        if rest.len() == 0 {
            Err(KeyParseError::InvalidSyntax)
        } else {
            match number_spec(rest) {
                Ok(n) => Ok(KeyFieldExpr::LastFieldMinus(n)),
                Err(e) => Err(map_key_number_error(e)),
            }
        }
    } else if all_digits(s) {
        match number_spec(s) {
            Ok(n) => Ok(KeyFieldExpr::FieldNumber(n)),
            Err(e) => Err(map_key_number_error(e)),
        }
    } else {
        Err(KeyParseError::InvalidSyntax)
    }
}

/// The attribute suffix of a key field, split off: `nr`, else `n`, else `r`,
/// else none. The expression before it must not be empty, and the command
/// must accept the attributes.
pub open spec fn split_attr_spec(s: Seq<u8>, options: KeyOptions) -> Result<(Seq<u8>, KeyAttr), KeyParseError> {
    if s.len() == 0 {
        Err(KeyParseError::InvalidSyntax)
    } else {
        let n = s.len();
        let (e, attr) = if n >= 2 && s[n - 2] == SUFFIX_N && s[n - 1] == SUFFIX_R {
            (s.take(n - 2), KeyAttr { kind: KeyKind::Numeric, descending: true })
        } else if s[n - 1] == SUFFIX_N {
            (s.take(n - 1), KeyAttr { kind: KeyKind::Numeric, descending: false })
        } else if s[n - 1] == SUFFIX_R {
            (s.take(n - 1), KeyAttr { kind: KeyKind::Byte, descending: true })
        } else {
            (s, KeyAttr { kind: KeyKind::Byte, descending: false })
        };
        if e.len() == 0 {
            Err(KeyParseError::InvalidSyntax)
        } else if attr.kind == KeyKind::Numeric && !options.allow_numeric {
            Err(KeyParseError::UnsupportedNumeric)
        } else if attr.descending && !options.allow_descending {
            Err(KeyParseError::UnsupportedDescending)
        } else {
            Ok((e, attr))
        }
    }
}

/// What a single key field (expression and suffix) parses to.
pub open spec fn key_field_spec(s: Seq<u8>, options: KeyOptions) -> Result<KeyField, KeyParseError> {
    match split_attr_spec(s, options) {
        Err(e) => Err(e),
        Ok((e, attr)) => match key_expr_spec(e) {
            Err(err) => Err(err),
            Ok(expr) => Ok(KeyField { expr, attr }),
        },
    }
}

/// A range endpoint parses as a key field, except that `0` there is
/// `ZeroInRange`.
pub open spec fn range_field_spec(s: Seq<u8>, options: KeyOptions) -> Result<KeyField, KeyParseError> {
    match key_field_spec(s, options) {
        Err(KeyParseError::UnsupportedZero) => Err(KeyParseError::ZeroInRange),
        r => r,
    }
}

/// What one key item parses to: a range when it holds a `/` (split at the
/// first one; both endpoints must carry the same attributes), a single field
/// otherwise.
#[verifier::opaque]
pub open spec fn key_item_spec(s: Seq<u8>, options: KeyOptions) -> Result<KeyItem, KeyParseError> {
    match first_index_of(s, SLASH) {
        Some(p) => match range_field_spec(s.take(p), options) {
            Err(e) => Err(e),
            Ok(a) => match range_field_spec(s.skip(p + 1), options) {
                Err(e) => Err(e),
                Ok(b) => if a.attr != b.attr {
                    Err(KeyParseError::MixedRangeAttributes)
                } else {
                    Ok(KeyItem::Range(a.expr, b.expr, a.attr))
                },
            },
        },
        None => match key_field_spec(s, options) {
            Err(e) => Err(e),
            Ok(f) => Ok(KeyItem::Field(f)),
        },
    }
}

/// What the `@`-separated items of `s` parse to, in order; an empty item is
/// `InvalidSyntax`, and the first item that fails decides the error.
pub open spec fn key_items_spec(s: Seq<u8>, options: KeyOptions) -> Result<Seq<KeyItem>, KeyParseError>
    decreases s.len(),
{
    match first_index_of(s, AT) {
        Some(p) => {
            proof {
                lemma_first_index_of(s, AT);
            }
            if p == 0 {
                Err(KeyParseError::InvalidSyntax)
            } else {
                match key_item_spec(s.take(p), options) {
                    Err(e) => Err(e),
                    Ok(item) => match key_items_spec(s.skip(p + 1), options) {
                        Err(e) => Err(e),
                        Ok(rest) => Ok(seq![item] + rest),
                    },
                }
            }
        },
        None => if s.len() == 0 {
            Err(KeyParseError::InvalidSyntax)
        } else {
            match key_item_spec(s, options) {
                Err(e) => Err(e),
                Ok(item) => Ok(seq![item]),
            }
        },
    }
}

/// What a key parses to.
pub open spec fn key_program_spec(s: Seq<u8>, options: KeyOptions) -> Result<Seq<KeyItem>, KeyParseError> {
    if s.len() == 0 {
        Err(KeyParseError::Empty)
    } else {
        key_items_spec(s, options)
    }
}

fn parse_number(input: &[u8]) -> (res: Result<u64, KeyParseError>)
    ensures
        res == (match number_spec(input@) {
            Ok(n) => Ok(n),
            Err(e) => Err(map_key_number_error(e)),
        }),
{
    match parse_u64_digits(input) {
        Ok(n) => Ok(n),
        Err(NumberError::NotDigits) => Err(KeyParseError::InvalidSyntax),
        Err(NumberError::TooLarge) => Err(KeyParseError::InvalidNumber),
    }
}

fn parse_key_expr(input: &[u8]) -> (res: Result<KeyFieldExpr, KeyParseError>)
    ensures
        res == key_expr_spec(input@),
{
    let len = input.len();
    if len == 0 {
        return Err(KeyParseError::InvalidSyntax);
    }
    if is_zero_digits(input) {
        return Err(KeyParseError::UnsupportedZero);
    }
    if len == 2 && input[0] == 0x4E && input[1] == 0x46 {
        assert(input@ =~= nf_token());
        return Ok(KeyFieldExpr::LastField);
    }
    if len >= 3 && input[0] == 0x4E && input[1] == 0x46 && input[2] == 0x2D {
        assert(input@.take(3) =~= nf_minus_prefix());
        assert(input@ != nf_token());
        assert(!is_zero_token(input@)) by {
            assert(!crate::digits::is_digit(input@[0]));
        }
        let rest = &input[3..len];
        assert(rest@ =~= input@.skip(3));
        if rest.len() == 0 {
            return Err(KeyParseError::InvalidSyntax);
        }
        return match parse_number(rest) {
            Ok(n) => Ok(KeyFieldExpr::LastFieldMinus(n)),
            Err(e) => Err(e),
        };
    }
    proof {
        if has_prefix(input@, nf_minus_prefix()) {
            assert(input@[0] == input@.take(3)[0]);
            assert(input@[1] == input@.take(3)[1]);
            assert(input@[2] == input@.take(3)[2]);
        }
        if input@ == nf_token() {
            assert(input@[0] == nf_token()[0]);
            assert(input@[1] == nf_token()[1]);
        }
    }
    if is_all_digits(input) {
        return match parse_number(input) {
            Ok(n) => Ok(KeyFieldExpr::FieldNumber(n)),
            Err(e) => Err(e),
        };
    }
    Err(KeyParseError::InvalidSyntax)
}

fn split_attr(input: &[u8], options: KeyOptions) -> (res: Result<(&[u8], KeyAttr), KeyParseError>)
    ensures
        res matches Ok((e, attr)) ==> split_attr_spec(input@, options) == Ok::<(Seq<u8>, KeyAttr), KeyParseError>((e@, attr)),
        res matches Err(err) ==> split_attr_spec(input@, options) == Err::<(Seq<u8>, KeyAttr), KeyParseError>(err),
{
    let n = input.len();
    if n == 0 {
        return Err(KeyParseError::InvalidSyntax);
    }
    let (expr, attr) = if n >= 2 && input[n - 2] == SUFFIX_N && input[n - 1] == SUFFIX_R {
        (&input[0..n - 2], KeyAttr { kind: KeyKind::Numeric, descending: true })
    } else if input[n - 1] == SUFFIX_N {
        (&input[0..n - 1], KeyAttr { kind: KeyKind::Numeric, descending: false })
    } else if input[n - 1] == SUFFIX_R {
        (&input[0..n - 1], KeyAttr { kind: KeyKind::Byte, descending: true })
    } else {
        (input, KeyAttr { kind: KeyKind::Byte, descending: false })
    };
    proof {
        let (se, sa) = if n >= 2 && input@[n - 2] == SUFFIX_N && input@[n - 1] == SUFFIX_R {
            (input@.take(n - 2), KeyAttr { kind: KeyKind::Numeric, descending: true })
        } else if input@[n - 1] == SUFFIX_N {
            (input@.take(n - 1), KeyAttr { kind: KeyKind::Numeric, descending: false })
        } else if input@[n - 1] == SUFFIX_R {
            (input@.take(n - 1), KeyAttr { kind: KeyKind::Byte, descending: true })
        } else {
            (input@, KeyAttr { kind: KeyKind::Byte, descending: false })
        };
        assert(expr@ =~= se);
        assert(attr == sa);
    }
    if expr.len() == 0 {
        return Err(KeyParseError::InvalidSyntax);
    }
    if attr.kind == KeyKind::Numeric && !options.allow_numeric {
        return Err(KeyParseError::UnsupportedNumeric);
    }
    if attr.descending && !options.allow_descending {
        return Err(KeyParseError::UnsupportedDescending);
    }
    Ok((expr, attr))
}

fn parse_key_field(input: &[u8], options: KeyOptions) -> (res: Result<KeyField, KeyParseError>)
    ensures
        res == key_field_spec(input@, options),
{
    let (expr_input, attr) = match split_attr(input, options) {
        Ok(x) => x,
        Err(e) => return Err(e),
    };
    match parse_key_expr(expr_input) {
        Ok(expr) => Ok(KeyField { expr, attr }),
        Err(e) => Err(e),
    }
}

fn parse_range_expr(input: &[u8], options: KeyOptions) -> (res: Result<KeyField, KeyParseError>)
    ensures
        res == range_field_spec(input@, options),
{
    match parse_key_field(input, options) {
        Err(KeyParseError::UnsupportedZero) => Err(KeyParseError::ZeroInRange),
        result => result,
    }
}

fn parse_key_item(input: &[u8], options: KeyOptions) -> (res: Result<KeyItem, KeyParseError>)
    ensures
        res == key_item_spec(input@, options),
{
    reveal(key_item_spec);
    let len = input.len();
    match find_byte(input, SLASH) {
        Some(p) => {
            let left = &input[0..p];
            let right = &input[p + 1..len];
            assert(left@ =~= input@.take(p as int));
            assert(right@ =~= input@.skip(p + 1));
            let start = match parse_range_expr(left, options) {
                Ok(f) => f,
                Err(e) => return Err(e),
            };
            let end = match parse_range_expr(right, options) {
                Ok(f) => f,
                Err(e) => return Err(e),
            };
            if start.attr != end.attr {
                return Err(KeyParseError::MixedRangeAttributes);
            }
            Ok(KeyItem::Range(start.expr, end.expr, start.attr))
        },
        None => match parse_key_field(input, options) {
            Ok(f) => Ok(KeyItem::Field(f)),
            Err(e) => Err(e),
        },
    }
}

proof fn lemma_prepend_ok_push<T, E>(done: Seq<T>, x: T, rest: Result<Seq<T>, E>)
    ensures
        prepend_ok(done, prepend_ok(seq![x], rest)) == prepend_ok(done.push(x), rest),
{
    match rest {
        Ok(r) => {
            assert(done + (seq![x] + r) =~= done.push(x) + r);
        },
        Err(_) => {},
    }
}

/// One step of `key_items_spec`: the item before the first `@`, then the
/// items after it.
proof fn lemma_key_items_step(s: Seq<u8>, options: KeyOptions, p: int)
    requires
        first_index_of(s, AT) == Some(p),
        p > 0,
    ensures
        key_items_spec(s, options) == (match key_item_spec(s.take(p), options) {
            Err(e) => Err(e),
            Ok(item) => prepend_ok(seq![item], key_items_spec(s.skip(p + 1), options)),
        }),
{
    match key_item_spec(s.take(p), options) {
        Err(_) => {},
        Ok(item) => {
            match key_items_spec(s.skip(p + 1), options) {
                Ok(r) => {},
                Err(_) => {},
            }
        },
    }
}

/// Parses a key.
pub fn parse_key_program(input: &[u8], options: KeyOptions) -> (res: Result<KeyProgram, KeyParseError>)
    ensures
        res matches Ok(p) ==> key_program_spec(input@, options) == Ok::<Seq<KeyItem>, KeyParseError>(p@),
        res matches Err(e) ==> key_program_spec(input@, options) == Err::<Seq<KeyItem>, KeyParseError>(e),
{
    if input.len() == 0 {
        return Err(KeyParseError::Empty);
    }
    let mut items: Vec<KeyItem> = Vec::new();
    let mut rest: &[u8] = input;
    proof {
        match key_items_spec(input@, options) {
            Ok(r) => {
                assert(items@ + r =~= r);
            },
            Err(_) => {},
        }
    }
    loop
        invariant
            input@.len() > 0,
            key_items_spec(input@, options) == prepend_ok(items@, key_items_spec(rest@, options)),
        decreases rest@.len(),
    {
        let len = rest.len();
        let ghost prev = items@;
        match find_byte(rest, AT) {
            Some(p) => {
                if p == 0 {
                    return Err(KeyParseError::InvalidSyntax);
                }
                let part = &rest[0..p];
                let tail = &rest[p + 1..len];
                assert(part@ =~= rest@.take(p as int));
                assert(tail@ =~= rest@.skip(p + 1));
                proof {
                    lemma_key_items_step(rest@, options, p as int);
                }
                let item = match parse_key_item(part, options) {
                    Ok(item) => item,
                    Err(e) => return Err(e),
                };
                items.push(item);
                proof {
                    lemma_prepend_ok_push(prev, item, key_items_spec(tail@, options));
                }
                rest = tail;
            },
            None => {
                if len == 0 {
                    return Err(KeyParseError::InvalidSyntax);
                }
                let item = match parse_key_item(rest, options) {
                    Ok(item) => item,
                    Err(e) => return Err(e),
                };
                items.push(item);
                assert(prev + seq![item] =~= items@);
                return Ok(KeyProgram { items });
            },
        }
    }
}

// ---------------------------------------------------------------------------
// Resolution
// ---------------------------------------------------------------------------

/// A key item resolved to one field position.
#[derive(Clone, Copy, Debug, Eq, PartialEq)]
pub struct ResolvedKeyPosition {
    pub position: FieldPosition,
    pub attr: KeyAttr,
}

/// A key item resolved to the bytes of one field of a record.
#[derive(Clone, Copy, Debug, Eq, PartialEq)]
pub struct ResolvedKeyField<'a> {
    pub bytes: &'a [u8],
    pub position: FieldPosition,
    pub attr: KeyAttr,
}

/// The key fields of one record, in key order.
#[derive(Clone, Debug, Eq, PartialEq)]
pub struct ResolvedKey<'a> {
    fields: Vec<ResolvedKeyField<'a>>,
}

impl<'a> View for ResolvedKey<'a> {
    type V = Seq<ResolvedKeyField<'a>>;

    closed spec fn view(&self) -> Seq<ResolvedKeyField<'a>> {
        self.fields@
    }
}

impl<'a> ResolvedKey<'a> {
    pub fn new(fields: Vec<ResolvedKeyField<'a>>) -> (k: Self)
        ensures
            k@ == fields@,
    {
        ResolvedKey { fields }
    }

    pub fn fields(&self) -> (s: &[ResolvedKeyField<'a>])
        ensures
            s@ == self@,
    {
        self.fields.as_slice()
    }
}

/// A resolved position as a 1-based number and its attributes.
pub open spec fn position_entry(p: ResolvedKeyPosition) -> (nat, KeyAttr) {
    (p.position@ as nat, p.attr)
}

pub open spec fn position_entries(s: Seq<ResolvedKeyPosition>) -> Seq<(nat, KeyAttr)> {
    s.map_values(|p: ResolvedKeyPosition| position_entry(p))
}

/// A resolved key field as its bytes, 1-based position and attributes.
pub open spec fn key_field_entry<'a>(f: ResolvedKeyField<'a>) -> (Seq<u8>, nat, KeyAttr) {
    (f.bytes@, f.position@ as nat, f.attr)
}

pub open spec fn key_field_entries<'a>(s: Seq<ResolvedKeyField<'a>>) -> Seq<(Seq<u8>, nat, KeyAttr)> {
    s.map_values(|f: ResolvedKeyField<'a>| key_field_entry(f))
}

/// The 1-based position a field expression stands for in a record of
/// `count` fields.
pub open spec fn key_expr_position(e: KeyFieldExpr, count: nat) -> Result<nat, KeyResolveError> {
    match e {
        KeyFieldExpr::FieldNumber(n) => if 1 <= n <= count {
            Ok(n as nat)
        } else {
            Err(KeyResolveError::MissingField)
        },
        KeyFieldExpr::LastField => if count == 0 {
            Err(KeyResolveError::MissingField)
        } else {
            Ok(count)
        },
        KeyFieldExpr::LastFieldMinus(off) => if count == 0 {
            Err(KeyResolveError::MissingField)
        } else if off == count {
            Err(KeyResolveError::NfResolvedToZero)
        } else if off > count {
            Err(KeyResolveError::MissingField)
        } else {
            Ok((count - off) as nat)
        },
    }
}

pub open spec fn with_attr(ps: Seq<nat>, attr: KeyAttr) -> Seq<(nat, KeyAttr)> {
    ps.map_values(|p: nat| (p, attr))
}

/// The positions one key item stands for in a record of `count` fields: a
/// range from its start towards its end, both included.
pub open spec fn item_positions(item: KeyItem, count: nat) -> Result<Seq<(nat, KeyAttr)>, KeyResolveError> {
    match item {
        KeyItem::Field(f) => match key_expr_position(f.expr, count) {
            Ok(p) => Ok(seq![(p, f.attr)]),
            Err(e) => Err(e),
        },
        KeyItem::Range(a, b, attr) => match key_expr_position(a, count) {
            Err(e) => Err(e),
            Ok(x) => match key_expr_position(b, count) {
                Err(e) => Err(e),
                Ok(y) => Ok(with_attr(range_positions(x, y), attr)),
            },
        },
    }
}

/// The positions of all key items in key order, or the error of the first
/// item that fails.
pub open spec fn key_positions_spec(items: Seq<KeyItem>, count: nat) -> Result<Seq<(nat, KeyAttr)>, KeyResolveError>
    decreases items.len(),
{
    if items.len() == 0 {
        Ok(Seq::empty())
    } else {
        match item_positions(items[0], count) {
            Err(e) => Err(e),
            Ok(ps) => match key_positions_spec(items.drop_first(), count) {
                Err(e) => Err(e),
                Ok(rest) => Ok(ps + rest),
            },
        }
    }
}

/// The key fields at the given positions of a record with the given fields.
pub open spec fn fields_at(ps: Seq<(nat, KeyAttr)>, fields: Seq<Seq<u8>>) -> Seq<(Seq<u8>, nat, KeyAttr)> {
    ps.map_values(|e: (nat, KeyAttr)| (fields[e.0 - 1], e.0, e.1))
}

/// Every position is that of a field of a record with `count` fields.
pub open spec fn positions_in_range(ps: Seq<(nat, KeyAttr)>, count: nat) -> bool {
    forall|i: int| 0 <= i < ps.len() ==> 1 <= #[trigger] ps[i].0 <= count
}

/// What a key program resolves to against a record with the given fields.
pub open spec fn resolve_key_spec(items: Seq<KeyItem>, fields: Seq<Seq<u8>>) -> Result<Seq<(Seq<u8>, nat, KeyAttr)>, KeyResolveError> {
    match key_positions_spec(items, fields.len()) {
        Ok(ps) => Ok(fields_at(ps, fields)),
        Err(e) => Err(e),
    }
}

/// What precomputed positions resolve to against a record with the given
/// fields: `MissingField` when any of them is not a field of the record.
pub open spec fn with_positions_spec(ps: Seq<(nat, KeyAttr)>, fields: Seq<Seq<u8>>) -> Result<Seq<(Seq<u8>, nat, KeyAttr)>, KeyResolveError> {
    if positions_in_range(ps, fields.len()) {
        Ok(fields_at(ps, fields))
    } else {
        Err(KeyResolveError::MissingField)
    }
}

fn resolve_expr_number(expr: &KeyFieldExpr, count: usize) -> (res: Result<u64, KeyResolveError>)
    ensures
        res matches Ok(n) ==> key_expr_position(*expr, count as nat) == Ok::<nat, KeyResolveError>(n as nat),
        res matches Err(e) ==> key_expr_position(*expr, count as nat) == Err::<nat, KeyResolveError>(e),
{
    let count64 = count as u64;
    match expr {
        KeyFieldExpr::FieldNumber(n) => {
            if *n == 0 || *n > count64 {
                Err(KeyResolveError::MissingField)
            } else {
                Ok(*n)
            }
        },
        KeyFieldExpr::LastField => {
            if count == 0 {
                Err(KeyResolveError::MissingField)
            } else {
                Ok(count64)
            }
        },
        KeyFieldExpr::LastFieldMinus(offset) => {
            if count == 0 {
                Err(KeyResolveError::MissingField)
            } else if *offset == count64 {
                Err(KeyResolveError::NfResolvedToZero)
            } else if *offset > count64 {
                Err(KeyResolveError::MissingField)
            } else {
                Ok(count64 - *offset)
            }
        },
    }
}

/// Appends the positions one key item stands for.
fn push_item_positions(out: &mut Vec<ResolvedKeyPosition>, item: &KeyItem, count: usize) -> (res: Result<(), KeyResolveError>)
    ensures
        res is Ok ==> (item_positions(*item, count as nat) matches Ok(ps) && position_entries(final(out)@) == position_entries(old(out)@) + ps),
        res matches Err(e) ==> item_positions(*item, count as nat) == Err::<Seq<(nat, KeyAttr)>, KeyResolveError>(e),
{
    let ghost start = out@;
    match item {
        KeyItem::Field(field) => {
            let n = resolve_expr_number(&field.expr, count)?;
            out.push(ResolvedKeyPosition { position: FieldPosition::from_one_based(n), attr: field.attr });
            proof {
                assert(position_entries(out@) =~= position_entries(start) + seq![(n as nat, field.attr)]);
            }
            Ok(())
        },
        KeyItem::Range(a, b, attr) => {
            let x = resolve_expr_number(a, count)?;
            let y = resolve_expr_number(b, count)?;
            let mut numbers: Vec<u64> = Vec::new();
            push_range(&mut numbers, x, y);
            let ghost expected = with_attr(range_positions(x as nat, y as nat), *attr);
            assert(u64_views(numbers@) =~= range_positions(x as nat, y as nat));
            let mut j: usize = 0;
            while j < numbers.len()
                invariant
                    0 <= j <= numbers@.len(),
                    1 <= x <= count,
                    1 <= y <= count,
                    u64_views(numbers@) == range_positions(x as nat, y as nat),
                    forall|i: int| 0 <= i < numbers@.len() ==> (x <= #[trigger] numbers@[i] <= y || y <= numbers@[i] <= x),
                    expected == with_attr(range_positions(x as nat, y as nat), *attr),
                    start == old(out)@,
                    position_entries(out@) == position_entries(start) + expected.take(j as int),
                decreases numbers@.len() - j,
            {
                let ghost before = out@;
                let v = numbers[j];
                assert(u64_views(numbers@)[j as int] == v as nat);
                out.push(ResolvedKeyPosition { position: FieldPosition::from_one_based(v), attr: *attr });
                proof {
                    assert(expected[j as int] == (v as nat, *attr));
                    assert(position_entries(out@) =~= position_entries(before).push((v as nat, *attr)));
                    assert(expected.take(j + 1) =~= expected.take(j as int).push(expected[j as int]));
                }
                j += 1;
            }
            assert(expected.take(j as int) =~= expected);
            Ok(())
        },
    }
}

/// The positions a key program stands for in a record of `count` fields.
fn positions_for_count(program: &KeyProgram, count: usize) -> (res: Result<Vec<ResolvedKeyPosition>, KeyResolveError>)
    ensures
        res matches Ok(ps) ==> key_positions_spec(program@, count as nat) == Ok::<Seq<(nat, KeyAttr)>, KeyResolveError>(position_entries(ps@)),
        res matches Ok(ps) ==> positions_in_range(position_entries(ps@), count as nat),
        res matches Err(e) ==> key_positions_spec(program@, count as nat) == Err::<Seq<(nat, KeyAttr)>, KeyResolveError>(e),
{
    let items = program.items();
    let ghost its = program@;
    let ghost n = count as nat;
    let mut resolved: Vec<ResolvedKeyPosition> = Vec::new();
    let mut i: usize = 0;
    proof {
        assert(its.skip(0) =~= its);
        match key_positions_spec(its, n) {
            Ok(r) => {
                assert(position_entries(resolved@) + r =~= r);
            },
            Err(_) => {},
        }
    }
    while i < items.len()
        invariant
            0 <= i <= its.len(),
            items@ == its,
            its == program@,
            n == count,
            key_positions_spec(its, n) == prepend_ok(position_entries(resolved@), key_positions_spec(its.skip(i as int), n)),
            positions_in_range(position_entries(resolved@), n),
        decreases its.len() - i,
    {
        let ghost rest = its.skip(i as int);
        assert(rest[0] == its[i as int]);
        assert(rest.drop_first() =~= its.skip(i + 1));
        let ghost prev = resolved@;
        match push_item_positions(&mut resolved, &items[i], count) {
            Ok(()) => {},
            Err(e) => {
                return Err(e);
            },
        }
        proof {
            lemma_item_positions_in_range(its[i as int], n);
            let ps = item_positions(its[i as int], n)->Ok_0;
            let pe = position_entries(resolved@);
            assert forall|k: int| 0 <= k < pe.len() implies 1 <= #[trigger] pe[k].0 <= n by {
                if k < prev.len() {
                    assert(pe[k] == position_entries(prev)[k]);
                } else {
                    assert(pe[k] == ps[k - prev.len()]);
                }
            }
            match key_positions_spec(its.skip(i + 1), n) {
                Ok(r) => {
                    assert(position_entries(prev) + (ps + r) =~= position_entries(resolved@) + r);
                },
                Err(_) => {},
            }
        }
        i += 1;
    }
    proof {
        assert(its.skip(i as int) =~= Seq::<KeyItem>::empty());
        assert(position_entries(resolved@) + Seq::<(nat, KeyAttr)>::empty() =~= position_entries(resolved@));
    }
    Ok(resolved)
}

/// Every position a key item resolves to is a field of the record.
pub proof fn lemma_item_positions_in_range(item: KeyItem, count: nat)
    ensures
        item_positions(item, count) matches Ok(ps) ==> positions_in_range(ps, count),
{
    match item {
        KeyItem::Field(f) => {},
        KeyItem::Range(a, b, attr) => {
            match (key_expr_position(a, count), key_expr_position(b, count)) {
                (Ok(x), Ok(y)) => {
                    let ps = with_attr(range_positions(x, y), attr);
                    assert forall|i: int| 0 <= i < ps.len() implies 1 <= #[trigger] ps[i].0 <= count by {
                        assert(ps[i].0 == range_positions(x, y)[i]);
                    }
                },
                _ => {},
            }
        },
    }
}

/// Resolves a key against one record, to the positions it stands for.
pub fn resolve_key_positions(program: &KeyProgram, record: &[u8]) -> (res: Result<Vec<ResolvedKeyPosition>, KeyResolveError>)
    ensures
        res matches Ok(ps) ==> key_positions_spec(program@, fields_of(record@).len()) == Ok::<Seq<(nat, KeyAttr)>, KeyResolveError>(position_entries(ps@)),
        res matches Err(e) ==> key_positions_spec(program@, fields_of(record@).len()) == Err::<Seq<(nat, KeyAttr)>, KeyResolveError>(e),
{
    let count = split_fields(record).count();
    positions_for_count(program, count)
}

/// The key fields at the given in-range positions.
fn fields_from_positions<'a>(positions: &[ResolvedKeyPosition], fields: &Vec<&'a [u8]>) -> (out: Vec<ResolvedKeyField<'a>>)
    requires
        positions_in_range(position_entries(positions@), fields@.len() as nat),
    ensures
        key_field_entries(out@) == fields_at(position_entries(positions@), slice_views(fields@)),
{
    let ghost ps = position_entries(positions@);
    let ghost fv = slice_views(fields@);
    let flen = fields.len();
    let mut out: Vec<ResolvedKeyField<'a>> = Vec::new();
    let mut i: usize = 0;
    while i < positions.len()
        invariant
            0 <= i <= positions@.len(),
            ps == position_entries(positions@),
            flen == fields@.len(),
            fv == slice_views(fields@),
            positions_in_range(ps, fields@.len() as nat),
            key_field_entries(out@) == fields_at(ps, fv).take(i as int),
        decreases positions@.len() - i,
    {
        let p = positions[i];
        let number = p.position.get();
        assert(ps[i as int].0 == number);
        assert(1 <= ps[i as int].0 <= fields@.len());
        let index = (number - 1) as usize;
        let ghost before = out@;
        out.push(ResolvedKeyField { bytes: fields[index], position: p.position, attr: p.attr });
        proof {
            let fa = fields_at(ps, fv);
            assert(fv[index as int] == fields@[index as int]@);
            assert(ps[i as int] == position_entry(positions@[i as int]));
            assert(ps[i as int] == (number as nat, p.attr));
            assert(index as int == ps[i as int].0 - 1);
            assert(fa[i as int] == (fields@[index as int]@, number as nat, p.attr));
            assert(key_field_entries(out@) =~= key_field_entries(before).push(fa[i as int]));
            assert(fa.take(i + 1) =~= fa.take(i as int).push(fa[i as int]));
        }
        i += 1;
    }
    assert(fields_at(ps, fv).take(i as int) =~= fields_at(ps, fv));
    out
}

/// Resolves a key against one record, to the field bytes it stands for.
pub fn resolve_key<'a>(program: &KeyProgram, record: &'a [u8]) -> (res: Result<ResolvedKey<'a>, KeyResolveError>)
    ensures
        res matches Ok(k) ==> resolve_key_spec(program@, fields_of(record@)) == Ok::<Seq<(Seq<u8>, nat, KeyAttr)>, KeyResolveError>(key_field_entries(k@)),
        res matches Err(e) ==> resolve_key_spec(program@, fields_of(record@)) == Err::<Seq<(Seq<u8>, nat, KeyAttr)>, KeyResolveError>(e),
{
    let fields = split_fields(record).collect();
    let positions = match positions_for_count(program, fields.len()) {
        Ok(ps) => ps,
        Err(e) => return Err(e),
    };
    let out = fields_from_positions(positions.as_slice(), &fields);
    Ok(ResolvedKey { fields: out })
}

/// Resolves precomputed positions against one record; `MissingField` when
/// any position is not a field of the record.
pub fn resolve_key_with_positions<'a>(positions: &[ResolvedKeyPosition], record: &'a [u8]) -> (res: Result<ResolvedKey<'a>, KeyResolveError>)
    ensures
        res matches Ok(k) ==> with_positions_spec(position_entries(positions@), fields_of(record@)) == Ok::<Seq<(Seq<u8>, nat, KeyAttr)>, KeyResolveError>(key_field_entries(k@)),
        res matches Err(e) ==> with_positions_spec(position_entries(positions@), fields_of(record@)) == Err::<Seq<(Seq<u8>, nat, KeyAttr)>, KeyResolveError>(e),
{
    let fields = split_fields(record).collect();
    let count = fields.len();
    let ghost ps = position_entries(positions@);
    let mut i: usize = 0;
    while i < positions.len()
        invariant
            0 <= i <= positions@.len(),
            ps == position_entries(positions@),
            count == fields@.len(),
            slice_views(fields@) == fields_of(record@),
            forall|k: int| 0 <= k < i ==> 1 <= #[trigger] ps[k].0 <= count,
        decreases positions@.len() - i,
    {
        let number = positions[i].position.get();
        assert(ps[i as int].0 == number);
        if number > count as u64 {
            assert(!(1 <= ps[i as int].0 <= count));
            assert(!positions_in_range(ps, count as nat));
            return Err(KeyResolveError::MissingField);
        }
        i += 1;
    }
    let out = fields_from_positions(positions, &fields);
    Ok(ResolvedKey { fields: out })
}

/// Resolving a key program equals resolving the positions it stands for:
/// every position it resolves to is a field of the record.
pub proof fn lemma_resolve_key_via_positions(items: Seq<KeyItem>, fields: Seq<Seq<u8>>)
    ensures
        resolve_key_spec(items, fields) == (match key_positions_spec(items, fields.len()) {
            Ok(ps) => with_positions_spec(ps, fields),
            Err(e) => Err(e),
        }),
{
    lemma_key_positions_in_range(items, fields.len());
}

/// Every position a key program resolves to is a field of the record.
pub proof fn lemma_key_positions_in_range(items: Seq<KeyItem>, count: nat)
    ensures
        key_positions_spec(items, count) matches Ok(ps) ==> positions_in_range(ps, count),
    decreases items.len(),
{
    if items.len() > 0 {
        lemma_item_positions_in_range(items[0], count);
        lemma_key_positions_in_range(items.drop_first(), count);
        match (item_positions(items[0], count), key_positions_spec(items.drop_first(), count)) {
            (Ok(a), Ok(b)) => {
                let ps = a + b;
                assert forall|i: int| 0 <= i < ps.len() implies 1 <= #[trigger] ps[i].0 <= count by {
                    if i < a.len() {
                        assert(ps[i] == a[i]);
                    } else {
                        assert(ps[i] == b[i - a.len()]);
                    }
                }
            },
            _ => {},
        }
    }
}

/// The entries with their numbers as integers.
pub open spec fn entry_numbers(ps: Seq<(nat, KeyAttr)>) -> Seq<int> {
    ps.map_values(|e: (nat, KeyAttr)| e.0 as int)
}

/// Positions shifted so that the smallest becomes 1, in the same order and
/// with the same attributes.
pub open spec fn normalize_spec(ps: Seq<(nat, KeyAttr)>) -> Seq<(nat, KeyAttr)> {
    if ps.len() == 0 {
        Seq::empty()
    } else {
        let m = entry_numbers(ps).min();
        ps.map_values(|e: (nat, KeyAttr)| ((e.0 - m + 1) as nat, e.1))
    }
}

/// Shifts positions so that the smallest becomes 1.
pub fn normalize_key_positions_to_one(positions: &[ResolvedKeyPosition]) -> (out: Vec<ResolvedKeyPosition>)
    ensures
        position_entries(out@) == normalize_spec(position_entries(positions@)),
{
    let ghost ps = position_entries(positions@);
    let ghost nums = entry_numbers(ps);
    if positions.len() == 0 {
        let out: Vec<ResolvedKeyPosition> = Vec::new();
        assert(position_entries(out@) =~= Seq::<(nat, KeyAttr)>::empty());
        return out;
    }
    let mut minimum = positions[0].position.get();
    assert(nums[0] == minimum);
    let mut i: usize = 1;
    while i < positions.len()
        invariant
            1 <= i <= positions@.len(),
            ps == position_entries(positions@),
            nums == entry_numbers(ps),
            minimum >= 1,
            exists|k: int| 0 <= k < i && nums[k] == minimum,
            forall|k: int| 0 <= k < i ==> minimum <= #[trigger] nums[k],
        decreases positions@.len() - i,
    {
        let number = positions[i].position.get();
        assert(nums[i as int] == number);
        if number < minimum {
            minimum = number;
        }
        i += 1;
    }
    proof {
        nums.min_ensures();
        let k = choose|k: int| 0 <= k < nums.len() && nums[k] == minimum;
        assert(nums.contains(minimum as int));
        let j = choose|j: int| 0 <= j < nums.len() && nums[j] == nums.min();
        assert(minimum <= nums[j]);
    }
    let ghost expected = normalize_spec(ps);
    let mut out: Vec<ResolvedKeyPosition> = Vec::new();
    let mut i: usize = 0;
    while i < positions.len()
        invariant
            0 <= i <= positions@.len(),
            ps == position_entries(positions@),
            nums == entry_numbers(ps),
            positions@.len() > 0,
            minimum as int == nums.min(),
            minimum >= 1,
            forall|k: int| 0 <= k < positions@.len() ==> minimum <= #[trigger] nums[k],
            expected == normalize_spec(ps),
            position_entries(out@) == expected.take(i as int),
        decreases positions@.len() - i,
    {
        let p = positions[i];
        let number = p.position.get();
        assert(nums[i as int] == number);
        let shifted = number - minimum + 1;
        let ghost before = out@;
        out.push(ResolvedKeyPosition { position: FieldPosition::from_one_based(shifted), attr: p.attr });
        proof {
            assert(expected[i as int] == (shifted as nat, p.attr));
            assert(position_entries(out@) =~= position_entries(before).push((shifted as nat, p.attr)));
            assert(expected.take(i + 1) =~= expected.take(i as int).push(expected[i as int]));
        }
        i += 1;
    }
    assert(expected.take(i as int) =~= expected);
    out
}

// ---------------------------------------------------------------------------
// Comparison
// ---------------------------------------------------------------------------

/// Order of one pair of key fields under the left field's attributes, as a
/// sign; `None` when a numeric field is not a decimal number.
pub open spec fn field_sign_spec(l: Seq<u8>, r: Seq<u8>, attr: KeyAttr) -> Option<int> {
    let base = match attr.kind {
        KeyKind::Byte => Some(lex_sign(l, r)),
        KeyKind::Numeric => numeric_sign(l, r),
    };
    match base {
        Some(s) => Some(
            if attr.descending {
                -s
            } else {
                s
            },
        ),
        None => None,
    }
}

/// Order of two key field lists of the same length: the first pair that is
/// not equal decides; a numeric field that is not a decimal number fails the
/// comparison when it is reached.
pub open spec fn fields_sign_spec(l: Seq<(Seq<u8>, nat, KeyAttr)>, r: Seq<(Seq<u8>, nat, KeyAttr)>) -> Result<int, KeyCompareError>
    decreases l.len(),
{
    if l.len() == 0 || r.len() == 0 {
        Ok(0)
    } else {
        match field_sign_spec(l[0].0, r[0].0, l[0].2) {
            None => Err(KeyCompareError::InvalidNumericValue),
            Some(s) => if s != 0 {
                Ok(s)
            } else {
                fields_sign_spec(l.drop_first(), r.drop_first())
            },
        }
    }
}

/// Order of two resolved keys, as a sign; keys of different lengths cannot
/// be compared.
pub open spec fn keys_sign_spec(l: Seq<(Seq<u8>, nat, KeyAttr)>, r: Seq<(Seq<u8>, nat, KeyAttr)>) -> Result<int, KeyCompareError> {
    if l.len() != r.len() {
        Err(KeyCompareError::KeyLengthMismatch)
    } else {
        fields_sign_spec(l, r)
    }
}

/// The sign an `Ordering` stands for.
pub open spec fn ordering_sign(o: Ordering) -> int {
    match o {
        Ordering::Less => -1,
        Ordering::Equal => 0,
        Ordering::Greater => 1,
    }
}

fn field_sign(left: &ResolvedKeyField<'_>, right: &ResolvedKeyField<'_>) -> (res: Option<i8>)
    ensures
        res matches Some(s) ==> field_sign_spec(left.bytes@, right.bytes@, left.attr) == Some(s as int) && -1 <= s <= 1,
        res is None ==> field_sign_spec(left.bytes@, right.bytes@, left.attr) is None,
{
    let base = match left.attr.kind {
        KeyKind::Byte => compare_bytes(left.bytes, right.bytes),
        KeyKind::Numeric => match compare_numeric_bytes(left.bytes, right.bytes) {
            Some(s) => s,
            None => return None,
        },
    };
    if left.attr.descending {
        Some(-base)
    } else {
        Some(base)
    }
}

fn resolved_keys_sign(left: &[ResolvedKeyField<'_>], right: &[ResolvedKeyField<'_>]) -> (res: Result<i8, KeyCompareError>)
    ensures
        res matches Ok(s) ==> keys_sign_spec(key_field_entries(left@), key_field_entries(right@)) == Ok::<int, KeyCompareError>(s as int) && -1 <= s <= 1,
        res matches Err(e) ==> keys_sign_spec(key_field_entries(left@), key_field_entries(right@)) == Err::<int, KeyCompareError>(e),
{
    if left.len() != right.len() {
        return Err(KeyCompareError::KeyLengthMismatch);
    }
    let ghost lv = key_field_entries(left@);
    let ghost rv = key_field_entries(right@);
    let mut i: usize = 0;
    assert(lv.skip(0) =~= lv);
    assert(rv.skip(0) =~= rv);
    while i < left.len()
        invariant
            0 <= i <= left@.len(),
            left@.len() == right@.len(),
            lv == key_field_entries(left@),
            rv == key_field_entries(right@),
            fields_sign_spec(lv, rv) == fields_sign_spec(lv.skip(i as int), rv.skip(i as int)),
        decreases left@.len() - i,
    {
        let ghost ls = lv.skip(i as int);
        let ghost rs = rv.skip(i as int);
        assert(ls[0] == key_field_entry(left@[i as int]));
        assert(rs[0] == key_field_entry(right@[i as int]));
        assert(ls.drop_first() =~= lv.skip(i + 1));
        assert(rs.drop_first() =~= rv.skip(i + 1));
        match field_sign(&left[i], &right[i]) {
            None => {
                return Err(KeyCompareError::InvalidNumericValue);
            },
            Some(s) => {
                if s != 0 {
                    return Ok(s);
                }
            },
        }
        i += 1;
    }
    assert(lv.skip(i as int).len() == 0);
    Ok(0)
}

/// Compares two resolved keys field by field, in key order.
pub fn compare_resolved_keys(left: &ResolvedKey<'_>, right: &ResolvedKey<'_>) -> (res: Result<Ordering, KeyCompareError>)
    ensures
        res matches Ok(o) ==> keys_sign_spec(key_field_entries(left@), key_field_entries(right@)) == Ok::<int, KeyCompareError>(ordering_sign(o)),
        res matches Err(e) ==> keys_sign_spec(key_field_entries(left@), key_field_entries(right@)) == Err::<int, KeyCompareError>(e),
{
    match resolved_keys_sign(left.fields(), right.fields()) {
        Ok(s) => Ok(
            if s < 0 {
                Ordering::Less
            } else if s > 0 {
                Ordering::Greater
            } else {
                Ordering::Equal
            },
        ),
        Err(e) => Err(e),
    }
}

// ---------------------------------------------------------------------------
// Laws
// ---------------------------------------------------------------------------

/// Digit key expressions are read by value: two digit strings with the
/// same value mean the same expression (`01` is `1`; `00`, like `0`, is
/// refused).
pub proof fn lemma_key_expr_by_value(s: Seq<u8>, t: Seq<u8>)
    requires
        s.len() > 0,
        t.len() > 0,
        all_digits(s),
        all_digits(t),
        crate::digits::digits_value(s) == crate::digits::digits_value(t),
    ensures
        key_expr_spec(s) == key_expr_spec(t),
{
    crate::selector::lemma_digit_token(s);
    crate::selector::lemma_digit_token(t);
}

/// Key mapping: the normalised positions keep their order, their attributes
/// and the distances between them, and the smallest of them is 1.
pub proof fn lemma_normalize_shape(ps: Seq<(nat, KeyAttr)>)
    requires
        ps.len() > 0,
    ensures
        normalize_spec(ps).len() == ps.len(),
        forall|i: int| 0 <= i < ps.len() ==> (#[trigger] normalize_spec(ps)[i]).1 == ps[i].1,
        forall|i: int, j: int| 0 <= i < ps.len() && 0 <= j < ps.len() ==>
            (#[trigger] normalize_spec(ps)[i]).0 - (#[trigger] normalize_spec(ps)[j]).0 == ps[i].0 - ps[j].0,
        forall|i: int| 0 <= i < ps.len() ==> (#[trigger] normalize_spec(ps)[i]).0 >= 1,
        exists|i: int| 0 <= i < ps.len() && (#[trigger] normalize_spec(ps)[i]).0 == 1,
{
    let nums = entry_numbers(ps);
    nums.min_ensures();
    let n = normalize_spec(ps);
    let m = nums.min();
    assert forall|i: int| 0 <= i < ps.len() implies (#[trigger] n[i]).0 == ps[i].0 - m + 1 && n[i].0 >= 1 by {
        assert(nums[i] == ps[i].0);
        assert(m <= nums[i]);
    }
    assert(nums.contains(m));
    let k = choose|k: int| 0 <= k < nums.len() && nums[k] == m;
    assert(n[k].0 == 1);
}

/// Descending order is ascending order reversed, field by field.
pub proof fn lemma_descending_reverses(l: Seq<u8>, r: Seq<u8>, kind: KeyKind)
    ensures
        field_sign_spec(l, r, KeyAttr { kind, descending: true }) == (match field_sign_spec(l, r, KeyAttr { kind, descending: false }) {
            Some(s) => Some(-s),
            None => None::<int>,
        }),
{
}

/// The sign of a comparison with the sides swapped.
pub open spec fn negate_result(x: Result<int, KeyCompareError>) -> Result<int, KeyCompareError> {
    match x {
        Ok(s) => Ok(-s),
        Err(e) => Err(e),
    }
}

/// The two keys carry the same attributes, field by field.
pub open spec fn same_attrs(l: Seq<(Seq<u8>, nat, KeyAttr)>, r: Seq<(Seq<u8>, nat, KeyAttr)>) -> bool {
    &&& l.len() == r.len()
    &&& forall|i: int| 0 <= i < l.len() ==> (#[trigger] l[i]).2 == r[i].2
}

/// Key comparison is antisymmetric: for keys with the same attributes,
/// swapping the sides negates the result, and a failure stays a failure.
pub proof fn lemma_keys_sign_antisymmetric(l: Seq<(Seq<u8>, nat, KeyAttr)>, r: Seq<(Seq<u8>, nat, KeyAttr)>)
    requires
        same_attrs(l, r),
    ensures
        keys_sign_spec(r, l) == negate_result(keys_sign_spec(l, r)),
    decreases l.len(),
{
    if l.len() > 0 {
        let (lb, rb, a) = (l[0].0, r[0].0, l[0].2);
        assert(r[0].2 == a);
        lemma_lex_sign_antisymmetric(lb, rb);
        lemma_numeric_sign_antisymmetric(lb, rb);
        let lt = l.drop_first();
        let rt = r.drop_first();
        assert forall|i: int| 0 <= i < lt.len() implies (#[trigger] lt[i]).2 == rt[i].2 by {
            assert(lt[i] == l[i + 1]);
            assert(rt[i] == r[i + 1]);
        }
        lemma_keys_sign_antisymmetric(lt, rt);
    }
}

/// Every numeric field of the key holds a decimal number.
pub open spec fn numeric_fields_valid(k: Seq<(Seq<u8>, nat, KeyAttr)>) -> bool {
    forall|i: int| 0 <= i < k.len() && (#[trigger] k[i]).2.kind == KeyKind::Numeric ==> decimal_spec(k[i].0) is Some
}

/// A key whose numeric fields hold decimal numbers is equal to itself.
pub proof fn lemma_keys_sign_reflexive(k: Seq<(Seq<u8>, nat, KeyAttr)>)
    requires
        numeric_fields_valid(k),
    ensures
        keys_sign_spec(k, k) == Ok::<int, KeyCompareError>(0),
    decreases k.len(),
{
    if k.len() > 0 {
        lemma_lex_sign_reflexive(k[0].0);
        if k[0].2.kind == KeyKind::Numeric {
            lemma_numeric_sign_reflexive(k[0].0);
        }
        let t = k.drop_first();
        assert forall|i: int| 0 <= i < t.len() && (#[trigger] t[i]).2.kind == KeyKind::Numeric implies decimal_spec(t[i].0) is Some by {
            assert(t[i] == k[i + 1]);
        }
        lemma_keys_sign_reflexive(t);
    }
}

/// Composite keys compare their first elements first: only when those are
/// equal do the following elements decide.
pub proof fn lemma_keys_sign_concat(l1: Seq<(Seq<u8>, nat, KeyAttr)>, l2: Seq<(Seq<u8>, nat, KeyAttr)>, r1: Seq<(Seq<u8>, nat, KeyAttr)>, r2: Seq<(Seq<u8>, nat, KeyAttr)>)
    requires
        l1.len() == r1.len(),
        l2.len() == r2.len(),
    ensures
        keys_sign_spec(l1 + l2, r1 + r2) == (if keys_sign_spec(l1, r1) == Ok::<int, KeyCompareError>(0) {
            keys_sign_spec(l2, r2)
        } else {
            keys_sign_spec(l1, r1)
        }),
    decreases l1.len(),
{
    if l1.len() == 0 {
        assert(l1 + l2 =~= l2);
        assert(r1 + r2 =~= r2);
    } else {
        assert((l1 + l2)[0] == l1[0]);
        assert((r1 + r2)[0] == r1[0]);
        assert((l1 + l2).drop_first() =~= l1.drop_first() + l2);
        assert((r1 + r2).drop_first() =~= r1.drop_first() + r2);
        lemma_keys_sign_concat(l1.drop_first(), l2, r1.drop_first(), r2);
    }
}

/// Field order is transitive under fixed attributes, and two steps that are
/// not both "equal" give a strict result.
pub proof fn lemma_field_sign_transitive(a: Seq<u8>, b: Seq<u8>, c: Seq<u8>, attr: KeyAttr)
    requires
        field_sign_spec(a, b, attr) matches Some(s) && s <= 0,
        field_sign_spec(b, c, attr) matches Some(s) && s <= 0,
    ensures
        field_sign_spec(a, c, attr) matches Some(s3) && s3 <= 0 && (s3 == 0 <==> (field_sign_spec(a, b, attr)
            == Some(0int) && field_sign_spec(b, c, attr) == Some(0int))),
{
    match attr.kind {
        KeyKind::Byte => {
            lemma_lex_sign_antisymmetric(a, b);
            lemma_lex_sign_antisymmetric(b, c);
            lemma_lex_sign_antisymmetric(a, c);
            if attr.descending {
                lemma_lex_sign_transitive(c, b, a);
            } else {
                lemma_lex_sign_transitive(a, b, c);
            }
        },
        KeyKind::Numeric => {
            lemma_numeric_sign_antisymmetric(a, b);
            lemma_numeric_sign_antisymmetric(b, c);
            lemma_numeric_sign_antisymmetric(a, c);
            if attr.descending {
                lemma_numeric_sign_transitive(c, b, a);
            } else {
                lemma_numeric_sign_transitive(a, b, c);
            }
        },
    }
}

/// Key order is transitive for keys with the same attributes, and two steps
/// that are not both "equal" give a strict result: sorted inputs stay
/// sorted under it.
pub proof fn lemma_keys_sign_transitive(a: Seq<(Seq<u8>, nat, KeyAttr)>, b: Seq<(Seq<u8>, nat, KeyAttr)>, c: Seq<(Seq<u8>, nat, KeyAttr)>)
    requires
        same_attrs(a, b),
        same_attrs(b, c),
        keys_sign_spec(a, b) matches Ok(s) && s <= 0,
        keys_sign_spec(b, c) matches Ok(s) && s <= 0,
    ensures
        keys_sign_spec(a, c) matches Ok(s3) && s3 <= 0 && (s3 == 0 <==> (keys_sign_spec(a, b) == Ok::<int, KeyCompareError>(0)
            && keys_sign_spec(b, c) == Ok::<int, KeyCompareError>(0))),
    decreases a.len(),
{
    if a.len() > 0 {
        let attr = a[0].2;
        assert(b[0].2 == attr);
        assert(c[0].2 == attr);
        let s1 = field_sign_spec(a[0].0, b[0].0, attr);
        let s2 = field_sign_spec(b[0].0, c[0].0, attr);
        if s1 == Some(0int) && s2 == Some(0int) {
            lemma_field_sign_transitive(a[0].0, b[0].0, c[0].0, attr);
            let (at, bt, ct) = (a.drop_first(), b.drop_first(), c.drop_first());
            assert forall|i: int| 0 <= i < at.len() implies (#[trigger] at[i]).2 == bt[i].2 by {
                assert(at[i] == a[i + 1]);
                assert(bt[i] == b[i + 1]);
            }
            assert forall|i: int| 0 <= i < bt.len() implies (#[trigger] bt[i]).2 == ct[i].2 by {
                assert(bt[i] == b[i + 1]);
                assert(ct[i] == c[i + 1]);
            }
            lemma_keys_sign_transitive(at, bt, ct);
        } else {
            lemma_field_sign_transitive(a[0].0, b[0].0, c[0].0, attr);
        }
    }
}

/// The suffix that spells the attributes: none, `n`, `r` or `nr`.
pub open spec fn attr_suffix(a: KeyAttr) -> Seq<u8> {
    match (a.kind, a.descending) {
        (KeyKind::Byte, false) => Seq::empty(),
        (KeyKind::Numeric, false) => seq![SUFFIX_N],
        (KeyKind::Byte, true) => seq![SUFFIX_R],
        (KeyKind::Numeric, true) => seq![SUFFIX_N, SUFFIX_R],
    }
}

/// The options accept the attributes.
pub open spec fn attrs_allowed(a: KeyAttr, options: KeyOptions) -> bool {
    &&& a.kind == KeyKind::Numeric ==> options.allow_numeric
    &&& a.descending ==> options.allow_descending
}

/// The options `wide` accept whatever `narrow` accepts.
pub open spec fn options_wider(narrow: KeyOptions, wide: KeyOptions) -> bool {
    &&& narrow.allow_numeric ==> wide.allow_numeric
    &&& narrow.allow_descending ==> wide.allow_descending
}

/// A key field is its expression followed by the suffix of its attributes;
/// the expression is not empty and the options accept the attributes. A
/// field that is empty or only a suffix is `InvalidSyntax`.
pub proof fn lemma_split_attr_shape(s: Seq<u8>, options: KeyOptions)
    ensures
        split_attr_spec(s, options) matches Ok((e, a)) ==> s == e + attr_suffix(a) && e.len() > 0 && attrs_allowed(a, options),
        (s.len() == 0 || s == seq![SUFFIX_N] || s == seq![SUFFIX_R] || s == seq![SUFFIX_N, SUFFIX_R])
            ==> split_attr_spec(s, options) == Err::<(Seq<u8>, KeyAttr), KeyParseError>(KeyParseError::InvalidSyntax),
{
    if s.len() > 0 {
        let n = s.len();
        if n >= 2 && s[n - 2] == SUFFIX_N && s[n - 1] == SUFFIX_R {
            assert(s =~= s.take(n - 2) + seq![SUFFIX_N, SUFFIX_R]);
        } else if s[n - 1] == SUFFIX_N {
            assert(s =~= s.take(n - 1) + seq![SUFFIX_N]);
        } else if s[n - 1] == SUFFIX_R {
            assert(s =~= s.take(n - 1) + seq![SUFFIX_R]);
        } else {
            assert(s =~= s + Seq::<u8>::empty());
        }
    }
}

proof fn lemma_split_attr_wider(s: Seq<u8>, o1: KeyOptions, o2: KeyOptions)
    requires
        options_wider(o1, o2),
    ensures
        split_attr_spec(s, o1) is Ok ==> split_attr_spec(s, o2) == split_attr_spec(s, o1),
{
}

proof fn lemma_key_item_wider(s: Seq<u8>, o1: KeyOptions, o2: KeyOptions)
    requires
        options_wider(o1, o2),
    ensures
        key_item_spec(s, o1) is Ok ==> key_item_spec(s, o2) == key_item_spec(s, o1),
{
    reveal(key_item_spec);
    match first_index_of(s, SLASH) {
        Some(p) => {
            lemma_split_attr_wider(s.take(p), o1, o2);
            lemma_split_attr_wider(s.skip(p + 1), o1, o2);
        },
        None => {
            lemma_split_attr_wider(s, o1, o2);
        },
    }
}

proof fn lemma_key_items_wider(s: Seq<u8>, o1: KeyOptions, o2: KeyOptions)
    requires
        options_wider(o1, o2),
    ensures
        key_items_spec(s, o1) is Ok ==> key_items_spec(s, o2) == key_items_spec(s, o1),
    decreases s.len(),
{
    lemma_first_index_of(s, AT);
    match first_index_of(s, AT) {
        Some(p) => {
            if p > 0 {
                lemma_key_item_wider(s.take(p), o1, o2);
                lemma_key_items_wider(s.skip(p + 1), o1, o2);
            }
        },
        None => {
            lemma_key_item_wider(s, o1, o2);
        },
    }
}

/// Wider options accept the same key as the same program: options only add
/// refusals, never change what a key means.
pub proof fn lemma_key_program_wider_options(s: Seq<u8>, o1: KeyOptions, o2: KeyOptions)
    requires
        options_wider(o1, o2),
    ensures
        key_program_spec(s, o1) is Ok ==> key_program_spec(s, o2) == key_program_spec(s, o1),
{
    lemma_key_items_wider(s, o1, o2);
}

/// The parts of a byte string between `@` bytes, in order.
pub open spec fn at_parts(s: Seq<u8>) -> Seq<Seq<u8>>
    decreases s.len(),
{
    match first_index_of(s, AT) {
        Some(p) => {
            proof {
                lemma_first_index_of(s, AT);
            }
            seq![s.take(p)] + at_parts(s.skip(p + 1))
        },
        None => seq![s],
    }
}

proof fn lemma_key_item_is_range(s: Seq<u8>, options: KeyOptions)
    ensures
        key_item_spec(s, options) matches Ok(item) ==> (item is Range <==> s.contains(SLASH)),
{
    reveal(key_item_spec);
    lemma_first_index_of(s, SLASH);
    if s.contains(SLASH) {
        let j = choose|j: int| 0 <= j < s.len() && s[j] == SLASH;
        assert(first_index_of(s, SLASH) is Some);
    }
}

/// A key holds one item per `@`-separated part, in order, and an item is a
/// range exactly when its part holds a `/`.
pub proof fn lemma_key_items_shape(s: Seq<u8>, options: KeyOptions)
    ensures
        key_items_spec(s, options) matches Ok(items) ==> items.len() == at_parts(s).len() && forall|i: int|
            0 <= i < items.len() ==> ((#[trigger] items[i] is Range) <==> at_parts(s)[i].contains(SLASH)),
    decreases s.len(),
{
    lemma_first_index_of(s, AT);
    match first_index_of(s, AT) {
        Some(p) => {
            if p > 0 {
                lemma_key_item_is_range(s.take(p), options);
                lemma_key_items_shape(s.skip(p + 1), options);
                if let Ok(items) = key_items_spec(s, options) {
                    let rest = key_items_spec(s.skip(p + 1), options)->Ok_0;
                    let parts = at_parts(s);
                    let rparts = at_parts(s.skip(p + 1));
                    assert(parts == seq![s.take(p)] + rparts);
                    assert forall|i: int| 0 <= i < items.len() implies ((#[trigger] items[i] is Range) <==> at_parts(s)[i].contains(SLASH)) by {
                        if i > 0 {
                            assert(items[i] == rest[i - 1]);
                            assert(parts[i] == rparts[i - 1]);
                        }
                    }
                }
            }
        },
        None => {
            lemma_key_item_is_range(s, options);
        },
    }
}

/// The attributes of a key item.
pub open spec fn item_attr(item: KeyItem) -> KeyAttr {
    match item {
        KeyItem::Field(f) => f.attr,
        KeyItem::Range(_, _, a) => a,
    }
}

proof fn lemma_key_item_allowed(s: Seq<u8>, options: KeyOptions)
    ensures
        key_item_spec(s, options) matches Ok(item) ==> attrs_allowed(item_attr(item), options),
{
    reveal(key_item_spec);
    match first_index_of(s, SLASH) {
        Some(p) => {
            lemma_split_attr_shape(s.take(p), options);
        },
        None => {
            lemma_split_attr_shape(s, options);
        },
    }
}

/// Every attribute of a parsed key is one the options accept.
pub proof fn lemma_key_items_allowed(s: Seq<u8>, options: KeyOptions)
    ensures
        key_items_spec(s, options) matches Ok(items) ==> forall|i: int|
            0 <= i < items.len() ==> attrs_allowed(item_attr(#[trigger] items[i]), options),
    decreases s.len(),
{
    lemma_first_index_of(s, AT);
    match first_index_of(s, AT) {
        Some(p) => {
            if p > 0 {
                lemma_key_item_allowed(s.take(p), options);
                lemma_key_items_allowed(s.skip(p + 1), options);
                if let Ok(items) = key_items_spec(s, options) {
                    let rest = key_items_spec(s.skip(p + 1), options)->Ok_0;
                    assert forall|i: int| 0 <= i < items.len() implies attrs_allowed(item_attr(#[trigger] items[i]), options) by {
                        if i > 0 {
                            assert(items[i] == rest[i - 1]);
                        }
                    }
                }
            }
        },
        None => {
            lemma_key_item_allowed(s, options);
        },
    }
}

} // verus!
