//! Field selectors: parsed once from command-line tokens, then resolved
//! against each record.
//!
//! Forms: `<digits>` (1-based field number), `0` (the raw record, where the
//! command allows it), `NF` (last field), `NF-<digits>` (counted from the
//! end), and `<expr>/<expr>` (inclusive range, reversed when the start is
//! greater than the end, where the command allows ranges).
use vstd::prelude::*;

use crate::digits::{all_digits, digits_value, is_all_digits, number_spec, parse_u64_digits, NumberError};
use crate::fields::{fields_of, slice_views, split_fields};

verus! {

/// Which selector forms a command accepts.
#[derive(Clone, Copy, Debug, Eq, PartialEq)]
pub struct SelectorOptions {
    pub allow_zero: bool,
    pub allow_range: bool,
}

impl SelectorOptions {
    /// Options for a command that takes one field per selector token.
    pub fn single_field(allow_zero: bool) -> (o: Self)
        ensures
            o == (SelectorOptions { allow_zero, allow_range: false }),
    {
        SelectorOptions { allow_zero, allow_range: false }
    }

    /// Options for a command that also accepts ranges.
    pub fn multi_field(allow_zero: bool) -> (o: Self)
        ensures
            o == (SelectorOptions { allow_zero, allow_range: true }),
    {
        SelectorOptions { allow_zero, allow_range: true }
    }
}

impl Default for SelectorOptions {
    fn default() -> (o: Self)
        ensures
            o == (SelectorOptions { allow_zero: false, allow_range: true }),
    {
        Self::multi_field(false)
    }
}

/// One parsed selector token.
#[derive(Clone, Debug, Eq, PartialEq)]
pub enum Selector {
    FieldNumber(u64),
    RawRecord,
    LastField,
    LastFieldMinus(u64),
    Range(SelectorExpr, SelectorExpr),
}

/// An endpoint of a range selector.
#[derive(Clone, Debug, Eq, PartialEq)]
pub enum SelectorExpr {
    FieldNumber(u64),
    LastField,
    LastFieldMinus(u64),
}

/// The selectors of a command, in command-line order.
#[derive(Clone, Debug, Eq, PartialEq)]
pub struct SelectorProgram {
    selectors: Vec<Selector>,
}

impl View for SelectorProgram {
    type V = Seq<Selector>;

    closed spec fn view(&self) -> Seq<Selector> {
        self.selectors@
    }
}

impl SelectorProgram {
    pub fn selectors(&self) -> (s: &[Selector])
        ensures
            s@ == self@,
    {
        self.selectors.as_slice()
    }
}

#[derive(Debug, Eq, PartialEq)]
pub enum SelectorParseError {
    UnsupportedZero,
    UnsupportedRange,
    ZeroInRange,
    InvalidSyntax,
    InvalidNumber,
}

impl SelectorParseError {
    /// The message a command reports for this error.
    pub fn message(&self) -> (m: &'static str)
        ensures
            m@ == match self {
                SelectorParseError::UnsupportedZero => "selector 0 is not supported by this command"@,
                SelectorParseError::UnsupportedRange => "range selectors are not supported by this command"@,
                SelectorParseError::ZeroInRange => "selector 0 must not appear inside a range"@,
                SelectorParseError::InvalidSyntax => "invalid selector syntax"@,
                SelectorParseError::InvalidNumber => "invalid selector number"@,
            },
    {
        match self {
            SelectorParseError::UnsupportedZero => "selector 0 is not supported by this command",
            SelectorParseError::UnsupportedRange => "range selectors are not supported by this command",
            SelectorParseError::ZeroInRange => "selector 0 must not appear inside a range",
            SelectorParseError::InvalidSyntax => "invalid selector syntax",
            SelectorParseError::InvalidNumber => "invalid selector number",
        }
    }
}

#[derive(Debug, Eq, PartialEq)]
pub enum SelectorResolveError {
    MissingField,
    NfResolvedToZero,
    UnsupportedZero,
}

impl SelectorResolveError {
    /// The message a command reports for this error.
    pub fn message(&self) -> (m: &'static str)
        ensures
            m@ == match self {
                SelectorResolveError::MissingField => "selector resolved to a non-existent field"@,
                SelectorResolveError::NfResolvedToZero => "selector NF-<n> resolved to field 0"@,
                SelectorResolveError::UnsupportedZero => "selector 0 cannot be resolved to a field position"@,
            },
    {
        match self {
            SelectorResolveError::MissingField => "selector resolved to a non-existent field",
            SelectorResolveError::NfResolvedToZero => "selector NF-<n> resolved to field 0",
            SelectorResolveError::UnsupportedZero => "selector 0 cannot be resolved to a field position",
        }
    }
}

/// One resolved selector item: a field of the record, or the raw record.
#[derive(Clone, Copy, Debug, Eq, PartialEq)]
pub enum ResolvedItem<'a> {
    Field(&'a [u8]),
    RawRecord(&'a [u8]),
}

/// The bytes a resolved item stands for, and which kind of item it is.
pub enum ItemView {
    Field(Seq<u8>),
    RawRecord(Seq<u8>),
}

impl<'a> View for ResolvedItem<'a> {
    type V = ItemView;

    open spec fn view(&self) -> ItemView {
        match self {
            ResolvedItem::Field(f) => ItemView::Field(f@),
            ResolvedItem::RawRecord(r) => ItemView::RawRecord(r@),
        }
    }
}

pub open spec fn item_views<'a>(s: Seq<ResolvedItem<'a>>) -> Seq<ItemView> {
    s.map_values(|i: ResolvedItem<'a>| i@)
}

/// A 1-based field position.
#[derive(Clone, Copy, Debug, Eq, Hash, Ord, PartialEq, PartialOrd)]
pub struct FieldPosition(u64);

impl View for FieldPosition {
    type V = u64;

    closed spec fn view(&self) -> u64 {
        self.0
    }
}

pub open spec fn position_views(s: Seq<FieldPosition>) -> Seq<nat> {
    s.map_values(|p: FieldPosition| p@ as nat)
}

impl FieldPosition {
    /// Positions count from 1.
    #[verifier::type_invariant]
    closed spec fn one_based(self) -> bool {
        self.0 >= 1
    }

    /// The position with the given 1-based number.
    pub fn from_one_based(value: u64) -> (p: Self)
        requires
            value > 0,
        ensures
            p@ == value,
    {
        FieldPosition(value)
    }

    /// The 1-based number of this position.
    pub fn get(self) -> (n: u64)
        ensures
            n == self@,
            n >= 1,
    {
        proof {
            use_type_invariant(&self);
        }
        self.0
    }

    /// The 0-based index of this position, where it fits in a `usize`.
    pub fn to_zero_based(self) -> (i: Option<usize>)
        ensures
            i == (if 1 <= self@ && self@ - 1 <= usize::MAX {
                Some((self@ - 1) as usize)
            } else {
                None
            }),
    {
        proof {
            use_type_invariant(&self);
        }
        let z = self.0 - 1;
        if z <= usize::MAX as u64 {
            Some(z as usize)
        } else {
            None
        }
    }
}

// ---------------------------------------------------------------------------
// Syntax
// ---------------------------------------------------------------------------

/// A token that reads as the number zero: one or more `0` digits, as in
/// `0` or `00`.
pub open spec fn is_zero_token(s: Seq<u8>) -> bool {
    s.len() > 0 && all_digits(s) && digits_value(s) == 0
}

/// The token `NF`.
pub open spec fn nf_token() -> Seq<u8> {
    seq![0x4Eu8, 0x46u8]
}

/// The prefix `NF-`.
pub open spec fn nf_minus_prefix() -> Seq<u8> {
    seq![0x4Eu8, 0x46u8, 0x2Du8]
}

pub open spec fn has_prefix(s: Seq<u8>, p: Seq<u8>) -> bool {
    p.len() <= s.len() && s.take(p.len() as int) == p
}

/// Index of the first occurrence of `b` in `s`, if any.
pub open spec fn first_index_of(s: Seq<u8>, b: u8) -> Option<int> {
    if exists|i: int| 0 <= i < s.len() && s[i] == b {
        Some(choose|i: int| 0 <= i < s.len() && s[i] == b && forall|j: int| 0 <= j < i ==> s[j] != b)
    } else {
        None
    }
}

proof fn lemma_first_occurrence(s: Seq<u8>, b: u8, i: int)
    requires
        0 <= i < s.len(),
        s[i] == b,
    ensures
        exists|k: int| 0 <= k <= i && s[k] == b && forall|j: int| 0 <= j < k ==> s[j] != b,
    decreases i,
{
    if exists|j: int| 0 <= j < i && s[j] == b {
        let j = choose|j: int| 0 <= j < i && s[j] == b;
        lemma_first_occurrence(s, b, j);
    } else {
        assert(forall|j: int| 0 <= j < i ==> s[j] != b);
    }
}

/// `first_index_of` finds the first occurrence, and `None` means there is
/// none.
pub proof fn lemma_first_index_of(s: Seq<u8>, b: u8)
    ensures
        match first_index_of(s, b) {
            Some(p) => 0 <= p < s.len() && s[p] == b && forall|j: int| 0 <= j < p ==> s[j] != b,
            None => forall|j: int| 0 <= j < s.len() ==> s[j] != b,
        },
{
    if exists|i: int| 0 <= i < s.len() && s[i] == b {
        let i = choose|i: int| 0 <= i < s.len() && s[i] == b;
        lemma_first_occurrence(s, b, i);
    }
}

pub open spec fn map_number_error(e: NumberError) -> SelectorParseError {
    match e {
        NumberError::NotDigits => SelectorParseError::InvalidSyntax,
        NumberError::TooLarge => SelectorParseError::InvalidNumber,
    }
}

/// What one selector term (no `/`) parses to.
pub open spec fn term_spec(s: Seq<u8>, options: SelectorOptions) -> Result<Selector, SelectorParseError> {
    if s.len() == 0 {
        Err(SelectorParseError::InvalidSyntax)
    } else if is_zero_token(s) {
        if options.allow_zero {
            Ok(Selector::RawRecord)
        } else {
            Err(SelectorParseError::UnsupportedZero)
        }
    } else if s == nf_token() {
        Ok(Selector::LastField)
    } else if has_prefix(s, nf_minus_prefix()) {
        let rest = s.skip(3);
        if rest.len() == 0 {
            Err(SelectorParseError::InvalidSyntax)
        } else {
            match number_spec(rest) {
                Ok(n) => Ok(Selector::LastFieldMinus(n)),
                Err(e) => Err(map_number_error(e)),
            }
        }
    } else if all_digits(s) {
        match number_spec(s) {
            Ok(n) => Ok(Selector::FieldNumber(n)),
            Err(e) => Err(map_number_error(e)),
        }
    } else {
        Err(SelectorParseError::InvalidSyntax)
    }
}

/// What one range endpoint parses to.
pub open spec fn expr_spec(s: Seq<u8>, options: SelectorOptions) -> Result<SelectorExpr, SelectorParseError> {
    match term_spec(s, options) {
        Ok(Selector::FieldNumber(n)) => Ok(SelectorExpr::FieldNumber(n)),
        Ok(Selector::LastField) => Ok(SelectorExpr::LastField),
        Ok(Selector::LastFieldMinus(n)) => Ok(SelectorExpr::LastFieldMinus(n)),
        Ok(Selector::RawRecord) => Err(SelectorParseError::ZeroInRange),
        Ok(Selector::Range(_, _)) => Err(SelectorParseError::InvalidSyntax),
        Err(e) => Err(e),
    }
}

/// What one selector token parses to: a range when it holds a `/` (split at
/// the first one), a single term otherwise.
pub open spec fn selector_spec(s: Seq<u8>, options: SelectorOptions) -> Result<Selector, SelectorParseError> {
    match first_index_of(s, 0x2Fu8) {
        Some(p) => if !options.allow_range {
            Err(SelectorParseError::UnsupportedRange)
        } else {
            match expr_spec(s.take(p), options) {
                Err(e) => Err(e),
                Ok(a) => match expr_spec(s.skip(p + 1), options) {
                    Err(e) => Err(e),
                    Ok(b) => Ok(Selector::Range(a, b)),
                },
            }
        },
        None => term_spec(s, options),
    }
}

/// What a list of tokens parses to: every token in order, or the error of
/// the first token that fails.
pub open spec fn selectors_spec(tokens: Seq<Seq<u8>>, options: SelectorOptions) -> Result<Seq<Selector>, SelectorParseError>
    decreases tokens.len(),
{
    if tokens.len() == 0 {
        Ok(Seq::empty())
    } else {
        match selector_spec(tokens[0], options) {
            Err(e) => Err(e),
            Ok(s) => match selectors_spec(tokens.drop_first(), options) {
                Err(e) => Err(e),
                Ok(rest) => Ok(seq![s] + rest),
            },
        }
    }
}

pub open spec fn prepend_ok<T, E>(done: Seq<T>, rest: Result<Seq<T>, E>) -> Result<Seq<T>, E> {
    match rest {
        Ok(r) => Ok(done + r),
        Err(e) => Err(e),
    }
}

fn parse_number(input: &[u8]) -> (res: Result<u64, SelectorParseError>)
    ensures
        res == (match number_spec(input@) {
            Ok(n) => Ok(n),
            Err(e) => Err(map_number_error(e)),
        }),
{
    match parse_u64_digits(input) {
        Ok(n) => Ok(n),
        Err(NumberError::NotDigits) => Err(SelectorParseError::InvalidSyntax),
        Err(NumberError::TooLarge) => Err(SelectorParseError::InvalidNumber),
    }
}

pub(crate) fn bytes_eq(a: &[u8], b: &[u8]) -> (res: bool)
    ensures
        res == (a@ == b@),
{
    if a.len() != b.len() {
        return false;
    }
    let mut i: usize = 0;
    while i < a.len()
        invariant
            a@.len() == b@.len(),
            0 <= i <= a@.len(),
            forall|j: int| 0 <= j < i ==> a@[j] == b@[j],
        decreases a@.len() - i,
    {
        if a[i] != b[i] {
            return false;
        }
        i += 1;
    }
    assert(a@ =~= b@);
    true
}

/// Whether a token reads as the number zero.
pub(crate) fn is_zero_digits(input: &[u8]) -> (res: bool)
    ensures
        res == is_zero_token(input@),
{
    if input.len() == 0 || !is_all_digits(input) {
        return false;
    }
    crate::decimal::digits_are_zero(input)
}

/// A digit string is neither `NF` nor starts with `NF-`, and reads as its
/// value unless that value exceeds `u64::MAX`.
pub proof fn lemma_digit_token(s: Seq<u8>)
    requires
        s.len() > 0,
        all_digits(s),
    ensures
        s != nf_token(),
        !has_prefix(s, nf_minus_prefix()),
        number_spec(s) == (if digits_value(s) > u64::MAX {
            Err::<u64, NumberError>(NumberError::TooLarge)
        } else {
            Ok::<u64, NumberError>(digits_value(s) as u64)
        }),
{
    assert(crate::digits::is_digit(s[0]));
    assert(s != nf_token()) by {
        if s == nf_token() {
            assert(s[0] == nf_token()[0]);
        }
    }
    assert(!has_prefix(s, nf_minus_prefix())) by {
        if has_prefix(s, nf_minus_prefix()) {
            assert(s.take(3)[0] == s[0]);
        }
    }
    crate::digits::lemma_digit_prefix_len_is(s, s.len() as int);
    assert(s.take(s.len() as int) =~= s);
}

fn parse_term(input: &[u8], options: SelectorOptions) -> (res: Result<Selector, SelectorParseError>)
    ensures
        res == term_spec(input@, options),
{
    if input.len() == 0 {
        return Err(SelectorParseError::InvalidSyntax);
    }
    if is_zero_digits(input) {
        return if options.allow_zero {
            Ok(Selector::RawRecord)
        } else {
            Err(SelectorParseError::UnsupportedZero)
        };
    }
    if input.len() == 2 && input[0] == 0x4E && input[1] == 0x46 {
        assert(input@ =~= nf_token());
        return Ok(Selector::LastField);
    }
    if input.len() >= 3 && input[0] == 0x4E && input[1] == 0x46 && input[2] == 0x2D {
        assert(input@.take(3) =~= nf_minus_prefix());
        assert(input@ != nf_token());
        let rest = &input[3..input.len()];
        assert(rest@ =~= input@.skip(3));
        if rest.len() == 0 {
            return Err(SelectorParseError::InvalidSyntax);
        }
        return match parse_number(rest) {
            Ok(n) => Ok(Selector::LastFieldMinus(n)),
            Err(e) => Err(e),
        };
    }
    proof {
        if has_prefix(input@, nf_minus_prefix()) {
            assert(input@[0] == input@.take(3)[0]);
            assert(input@[1] == input@.take(3)[1]);
            assert(input@[2] == input@.take(3)[2]);
        }
        if input@ == nf_token() {
            assert(input@[0] == nf_token()[0]);
            assert(input@[1] == nf_token()[1]);
        }
    }
    if is_all_digits(input) {
        return match parse_number(input) {
            Ok(n) => Ok(Selector::FieldNumber(n)),
            Err(e) => Err(e),
        };
    }
    Err(SelectorParseError::InvalidSyntax)
}

fn parse_expr(input: &[u8], options: SelectorOptions) -> (res: Result<SelectorExpr, SelectorParseError>)
    ensures
        res == expr_spec(input@, options),
{
    match parse_term(input, options) {
        Ok(Selector::FieldNumber(n)) => Ok(SelectorExpr::FieldNumber(n)),
        Ok(Selector::LastField) => Ok(SelectorExpr::LastField),
        Ok(Selector::LastFieldMinus(n)) => Ok(SelectorExpr::LastFieldMinus(n)),
        Ok(Selector::RawRecord) => Err(SelectorParseError::ZeroInRange),
        Ok(Selector::Range(_, _)) => Err(SelectorParseError::InvalidSyntax),
        Err(e) => Err(e),
    }
}

/// Index of the first `b` in `input`, if any.
pub fn find_byte(input: &[u8], b: u8) -> (res: Option<usize>)
    ensures
        match res {
            Some(p) => p < input@.len() && input@[p as int] == b && first_index_of(input@, b) == Some(p as int),
            None => first_index_of(input@, b) is None,
        },
{
    let mut i: usize = 0;
    while i < input.len()
        invariant
            0 <= i <= input@.len(),
            forall|j: int| 0 <= j < i ==> input@[j] != b,
        decreases input@.len() - i,
    {
        if input[i] == b {
            proof {
                lemma_first_index_of(input@, b);
                // The first occurrence is neither before `i` (none there) nor
                // after it (`i` is one).
                let p = first_index_of(input@, b)->Some_0;
                assert(!(p < i) && !(p > i)) by {
                    if p > i {
                        assert(input@[i as int] != b);
                    }
                }
            }
            return Some(i);
        }
        i += 1;
    }
    None
}

fn parse_selector(input: &[u8], options: SelectorOptions) -> (res: Result<Selector, SelectorParseError>)
    ensures
        res == selector_spec(input@, options),
{
    let len = input.len();
    match find_byte(input, 0x2F) {
        Some(p) => {
            if !options.allow_range {
                return Err(SelectorParseError::UnsupportedRange);
            }
            let left = &input[0..p];
            let right = &input[p + 1..len];
            assert(left@ =~= input@.take(p as int));
            assert(right@ =~= input@.skip(p + 1));
            let start = match parse_expr(left, options) {
                Ok(e) => e,
                Err(e) => return Err(e),
            };
            let end = match parse_expr(right, options) {
                Ok(e) => e,
                Err(e) => return Err(e),
            };
            Ok(Selector::Range(start, end))
        },
        None => parse_term(input, options),
    }
}

/// Parses selector tokens, in order.
pub fn parse_selectors(inputs: &[&[u8]], options: SelectorOptions) -> (res: Result<SelectorProgram, SelectorParseError>)
    ensures
        match res {
            Ok(p) => selectors_spec(slice_views(inputs@), options) == Ok::<Seq<Selector>, SelectorParseError>(p@),
            Err(e) => selectors_spec(slice_views(inputs@), options) == Err::<Seq<Selector>, SelectorParseError>(e),
        },
{
    let ghost tokens = slice_views(inputs@);
    let mut selectors: Vec<Selector> = Vec::new();
    let mut i: usize = 0;
    proof {
        assert(tokens.skip(0) =~= tokens);
        match selectors_spec(tokens, options) {
            Ok(r) => {
                assert(selectors@ + r =~= r);
            },
            Err(_) => {},
        }
    }
    while i < inputs.len()
        invariant
            0 <= i <= inputs@.len(),
            tokens == slice_views(inputs@),
            selectors_spec(tokens, options) == prepend_ok(selectors@, selectors_spec(tokens.skip(i as int), options)),
        decreases inputs@.len() - i,
    {
        let ghost rest = tokens.skip(i as int);
        assert(rest[0] == inputs@[i as int]@);
        assert(rest.drop_first() =~= tokens.skip(i + 1));
        match parse_selector(inputs[i], options) {
            Ok(s) => {
                let ghost prev = selectors@;
                selectors.push(s);
                assert(prepend_ok(selectors@, selectors_spec(tokens.skip(i + 1), options))
                    =~= prepend_ok(prev, selectors_spec(rest, options))) by {
                    match selectors_spec(tokens.skip(i + 1), options) {
                        Ok(r) => {
                            assert(prev + (seq![s] + r) =~= selectors@ + r);
                        },
                        Err(_) => {},
                    }
                }
            },
            Err(e) => {
                return Err(e);
            },
        }
        i += 1;
    }
    assert(tokens.skip(i as int) =~= Seq::<Seq<u8>>::empty());
    assert(selectors@ + Seq::<Selector>::empty() =~= selectors@);
    Ok(SelectorProgram { selectors })
}

// ---------------------------------------------------------------------------
// Command-line tokens
// ---------------------------------------------------------------------------

/// How the command-line tokens of a selector command divide into selectors
/// and an optional file name.
#[derive(Clone, Copy, Debug, Eq, PartialEq)]
pub struct SelectorArgs {
    /// The first `selector_count` tokens are selectors.
    pub selector_count: usize,
    /// The token after the selectors names the input file.
    pub has_file: bool,
}

/// How a selector command reads its tokens: at least one is needed; the last
/// one names the input file unless it is the only token or is itself a
/// selector under the command's options.
pub open spec fn selector_args_spec(tokens: Seq<Seq<u8>>, options: SelectorOptions) -> Option<SelectorArgs> {
    if tokens.len() == 0 {
        None
    } else if tokens.len() == 1 {
        Some(SelectorArgs { selector_count: 1, has_file: false })
    } else if selector_spec(tokens.last(), options) is Ok {
        Some(SelectorArgs { selector_count: tokens.len() as usize, has_file: false })
    } else {
        Some(SelectorArgs { selector_count: (tokens.len() - 1) as usize, has_file: true })
    }
}

/// Splits the command-line tokens of a selector command into selectors and
/// an optional file name; `None` when there is no token at all.
pub fn split_selector_arguments(tokens: &[&[u8]], options: SelectorOptions) -> (res: Option<SelectorArgs>)
    ensures
        res == selector_args_spec(slice_views(tokens@), options),
{
    let n = tokens.len();
    let ghost tv = slice_views(tokens@);
    if n == 0 {
        return None;
    }
    if n == 1 {
        return Some(SelectorArgs { selector_count: 1, has_file: false });
    }
    let last: &[u8] = tokens[n - 1];
    assert(tv.last() == last@);
    let one: Vec<&[u8]> = vec![last];
    assert(slice_views(one@) =~= seq![last@]);
    let is_selector = parse_selectors(one.as_slice(), options).is_ok();
    proof {
        let t = seq![last@];
        assert(t[0] == last@);
        assert(t.drop_first() =~= Seq::<Seq<u8>>::empty());
        assert(selectors_spec(t.drop_first(), options) == Ok::<Seq<Selector>, SelectorParseError>(Seq::empty()));
        assert(selectors_spec(t, options) is Ok <==> selector_spec(last@, options) is Ok);
    }
    if is_selector {
        Some(SelectorArgs { selector_count: n, has_file: false })
    } else {
        Some(SelectorArgs { selector_count: n - 1, has_file: true })
    }
}

/// A token that is not a selector, given after at least one other token,
/// names the input file: the tokens before it are all the selectors.
pub proof fn lemma_trailing_token_names_file(before: Seq<Seq<u8>>, file: Seq<u8>, options: SelectorOptions)
    requires
        before.len() >= 1,
        !(selector_spec(file, options) is Ok),
    ensures
        selector_args_spec(before.push(file), options) == Some(
            SelectorArgs { selector_count: before.len() as usize, has_file: true },
        ),
{
    assert(before.push(file).last() == file);
}

/// A last token that is a selector names no file: every token is a
/// selector, whatever the tokens before it are.
pub proof fn lemma_trailing_selector_names_no_file(before: Seq<Seq<u8>>, last: Seq<u8>, options: SelectorOptions)
    requires
        selector_spec(last, options) is Ok,
    ensures
        selector_args_spec(before.push(last), options) == Some(
            SelectorArgs { selector_count: (before.len() + 1) as usize, has_file: false },
        ),
{
    assert(before.push(last).last() == last);
}

/// How the tokens divide depends on their number and on the last token
/// alone: two token lists of one length with the same last token divide
/// alike, whatever the tokens before it are.
pub proof fn lemma_split_depends_on_last_token(t: Seq<Seq<u8>>, u: Seq<Seq<u8>>, options: SelectorOptions)
    requires
        t.len() == u.len(),
        t.len() > 0 ==> t.last() == u.last(),
    ensures
        selector_args_spec(t, options) == selector_args_spec(u, options),
{
}

// ---------------------------------------------------------------------------
// Resolution
// ---------------------------------------------------------------------------

/// The 1-based position a range endpoint stands for in a record of `count`
/// fields.
pub open spec fn expr_position(e: SelectorExpr, count: nat) -> Result<nat, SelectorResolveError> {
    match e {
        SelectorExpr::FieldNumber(n) => if 1 <= n <= count {
            Ok(n as nat)
        } else {
            Err(SelectorResolveError::MissingField)
        },
        SelectorExpr::LastField => if count == 0 {
            Err(SelectorResolveError::MissingField)
        } else {
            Ok(count)
        },
        SelectorExpr::LastFieldMinus(off) => if count == 0 {
            Err(SelectorResolveError::MissingField)
        } else if off == count {
            Err(SelectorResolveError::NfResolvedToZero)
        } else if off > count {
            Err(SelectorResolveError::MissingField)
        } else {
            Ok((count - off) as nat)
        },
    }
}

/// The positions of an inclusive range, from `a` towards `b`.
pub open spec fn range_positions(a: nat, b: nat) -> Seq<nat> {
    if a <= b {
        Seq::new((b - a + 1) as nat, |i: int| (a + i) as nat)
    } else {
        Seq::new((a - b + 1) as nat, |i: int| (a - i) as nat)
    }
}

pub open spec fn one_position(r: Result<nat, SelectorResolveError>) -> Result<Seq<nat>, SelectorResolveError> {
    match r {
        Ok(p) => Ok(seq![p]),
        Err(e) => Err(e),
    }
}

/// The positions one selector stands for in a record of `count` fields.
pub open spec fn selector_positions(s: Selector, count: nat) -> Result<Seq<nat>, SelectorResolveError> {
    match s {
        Selector::FieldNumber(n) => one_position(expr_position(SelectorExpr::FieldNumber(n), count)),
        Selector::RawRecord => Err(SelectorResolveError::UnsupportedZero),
        Selector::LastField => one_position(expr_position(SelectorExpr::LastField, count)),
        Selector::LastFieldMinus(n) => one_position(expr_position(SelectorExpr::LastFieldMinus(n), count)),
        Selector::Range(a, b) => match expr_position(a, count) {
            Err(e) => Err(e),
            Ok(x) => match expr_position(b, count) {
                Err(e) => Err(e),
                Ok(y) => Ok(range_positions(x, y)),
            },
        },
    }
}

/// The positions of all selectors in order, or the error of the first
/// selector that fails.
pub open spec fn positions_spec(sels: Seq<Selector>, count: nat) -> Result<Seq<nat>, SelectorResolveError>
    decreases sels.len(),
{
    if sels.len() == 0 {
        Ok(Seq::empty())
    } else {
        match selector_positions(sels[0], count) {
            Err(e) => Err(e),
            Ok(ps) => match positions_spec(sels.drop_first(), count) {
                Err(e) => Err(e),
                Ok(rest) => Ok(ps + rest),
            },
        }
    }
}

/// The fields at the given 1-based positions.
pub open spec fn field_items(ps: Seq<nat>, fields: Seq<Seq<u8>>) -> Seq<ItemView> {
    ps.map_values(|p: nat| ItemView::Field(fields[p - 1]))
}

/// The items one selector stands for in a record.
pub open spec fn selector_items(s: Selector, fields: Seq<Seq<u8>>, record: Seq<u8>) -> Result<Seq<ItemView>, SelectorResolveError> {
    match s {
        Selector::RawRecord => Ok(seq![ItemView::RawRecord(record)]),
        _ => match selector_positions(s, fields.len()) {
            Ok(ps) => Ok(field_items(ps, fields)),
            Err(e) => Err(e),
        },
    }
}

/// The items of all selectors in order, or the error of the first selector
/// that fails.
pub open spec fn items_spec(sels: Seq<Selector>, fields: Seq<Seq<u8>>, record: Seq<u8>) -> Result<Seq<ItemView>, SelectorResolveError>
    decreases sels.len(),
{
    if sels.len() == 0 {
        Ok(Seq::empty())
    } else {
        match selector_items(sels[0], fields, record) {
            Err(e) => Err(e),
            Ok(items) => match items_spec(sels.drop_first(), fields, record) {
                Err(e) => Err(e),
                Ok(rest) => Ok(items + rest),
            },
        }
    }
}

pub open spec fn u64_views(s: Seq<u64>) -> Seq<nat> {
    s.map_values(|x: u64| x as nat)
}

fn resolve_expr_number(expr: &SelectorExpr, count: usize) -> (res: Result<u64, SelectorResolveError>)
    ensures
        res matches Ok(n) ==> expr_position(*expr, count as nat) == Ok::<nat, SelectorResolveError>(n as nat),
        res matches Err(e) ==> expr_position(*expr, count as nat) == Err::<nat, SelectorResolveError>(e),
{
    let count64 = count as u64;
    match expr {
        SelectorExpr::FieldNumber(n) => {
            if *n == 0 || *n > count64 {
                Err(SelectorResolveError::MissingField)
            } else {
                Ok(*n)
            }
        },
        SelectorExpr::LastField => {
            if count == 0 {
                Err(SelectorResolveError::MissingField)
            } else {
                Ok(count64)
            }
        },
        SelectorExpr::LastFieldMinus(offset) => {
            if count == 0 {
                Err(SelectorResolveError::MissingField)
            } else if *offset == count64 {
                Err(SelectorResolveError::NfResolvedToZero)
            } else if *offset > count64 {
                Err(SelectorResolveError::MissingField)
            } else {
                Ok(count64 - *offset)
            }
        },
    }
}

/// Appends the positions of the inclusive range from `a` towards `b`.
pub(crate) fn push_range(out: &mut Vec<u64>, a: u64, b: u64)
    ensures
        u64_views(final(out)@) == u64_views(old(out)@) + range_positions(a as nat, b as nat),
        forall|i: int| old(out)@.len() <= i < final(out)@.len() ==> (a <= #[trigger] final(out)@[i] <= b || b <= final(out)@[i] <= a),
        final(out)@.take(old(out)@.len() as int) == old(out)@,
{
    let ghost start = out@;
    let ghost expected = range_positions(a as nat, b as nat);
    let up = a <= b;
    let k: u64 = if up { b - a } else { a - b };
    let mut i: u64 = 0;
    loop
        invariant
            i <= k,
            k == (if up { b - a } else { a - b }),
            up == (a <= b),
            expected == range_positions(a as nat, b as nat),
            out@.len() == start.len() + i,
            start == old(out)@,
            out@.take(start.len() as int) == start,
            u64_views(out@) == u64_views(start) + expected.take(i as int),
            forall|j: int| start.len() <= j < out@.len() ==> (a <= #[trigger] out@[j] <= b || b <= out@[j] <= a),
        decreases k - i,
    {
        let x = if up { a + i } else { a - i };
        let ghost prev = out@;
        out.push(x);
        proof {
            assert(expected[i as int] == x as nat);
            assert(expected.take(i + 1) =~= expected.take(i as int).push(x as nat));
            assert(u64_views(out@) =~= u64_views(prev).push(x as nat));
            assert(out@.take(start.len() as int) =~= prev.take(start.len() as int));
        }
        if i == k {
            assert(expected.take(i + 1) =~= expected);
            return;
        }
        i += 1;
    }
}

/// The positions one selector stands for, in a record of `count` fields.
fn selector_position_list(sel: &Selector, count: usize) -> (res: Result<Vec<u64>, SelectorResolveError>)
    ensures
        res matches Ok(v) ==> selector_positions(*sel, count as nat) == Ok::<Seq<nat>, SelectorResolveError>(u64_views(v@)),
        res matches Ok(v) ==> forall|i: int| 0 <= i < v@.len() ==> 1 <= #[trigger] v@[i] <= count,
        res matches Err(e) ==> selector_positions(*sel, count as nat) == Err::<Seq<nat>, SelectorResolveError>(e),
{
    let mut out: Vec<u64> = Vec::new();
    match sel {
        Selector::FieldNumber(n) => {
            let p = resolve_expr_number(&SelectorExpr::FieldNumber(*n), count)?;
            out.push(p);
        },
        Selector::RawRecord => {
            return Err(SelectorResolveError::UnsupportedZero);
        },
        Selector::LastField => {
            let p = resolve_expr_number(&SelectorExpr::LastField, count)?;
            out.push(p);
        },
        Selector::LastFieldMinus(n) => {
            let p = resolve_expr_number(&SelectorExpr::LastFieldMinus(*n), count)?;
            out.push(p);
        },
        Selector::Range(a, b) => {
            let x = resolve_expr_number(a, count)?;
            let y = resolve_expr_number(b, count)?;
            push_range(&mut out, x, y);
            assert(u64_views(out@) =~= range_positions(x as nat, y as nat));
            return Ok(out);
        },
    }
    assert(u64_views(out@) =~= seq![out@[0] as nat]);
    Ok(out)
}

/// Resolves every selector against one record, to the 1-based positions it
/// stands for. Selector `0` has no position and fails.
pub fn resolve_selector_positions(program: &SelectorProgram, record: &[u8]) -> (res: Result<Vec<FieldPosition>, SelectorResolveError>)
    ensures
        res matches Ok(ps) ==> positions_spec(program@, fields_of(record@).len()) == Ok::<Seq<nat>, SelectorResolveError>(position_views(ps@)),
        res matches Err(e) ==> positions_spec(program@, fields_of(record@).len()) == Err::<Seq<nat>, SelectorResolveError>(e),
{
    let count = split_fields(record).count();
    let selectors = program.selectors();
    let ghost sels = program@;
    let ghost n = count as nat;
    let mut resolved: Vec<FieldPosition> = Vec::new();
    let mut i: usize = 0;
    proof {
        assert(sels.skip(0) =~= sels);
        match positions_spec(sels, n) {
            Ok(r) => {
                assert(position_views(resolved@) + r =~= r);
            },
            Err(_) => {},
        }
    }
    while i < selectors.len()
        invariant
            0 <= i <= sels.len(),
            selectors@ == sels,
            sels == program@,
            n == count,
            n == fields_of(record@).len(),
            positions_spec(sels, n) == prepend_ok(position_views(resolved@), positions_spec(sels.skip(i as int), n)),
        decreases sels.len() - i,
    {
        let ghost rest = sels.skip(i as int);
        assert(rest[0] == sels[i as int]);
        assert(rest.drop_first() =~= sels.skip(i + 1));
        let list = match selector_position_list(&selectors[i], count) {
            Ok(list) => list,
            Err(e) => {
                assert(positions_spec(rest, n) == Err::<Seq<nat>, SelectorResolveError>(e));
                return Err(e);
            },
        };
        let ghost prev = resolved@;
        let mut j: usize = 0;
        while j < list.len()
            invariant
                0 <= j <= list@.len(),
                forall|k: int| 0 <= k < list@.len() ==> 1 <= #[trigger] list@[k] <= count,
                position_views(resolved@) == position_views(prev) + u64_views(list@).take(j as int),
            decreases list@.len() - j,
        {
            let ghost before = resolved@;
            resolved.push(FieldPosition::from_one_based(list[j]));
            assert(position_views(resolved@) =~= position_views(before).push(list@[j as int] as nat));
            assert(u64_views(list@).take(j + 1) =~= u64_views(list@).take(j as int).push(list@[j as int] as nat));
            j += 1;
        }
        proof {
            assert(u64_views(list@).take(j as int) =~= u64_views(list@));
            match positions_spec(sels.skip(i + 1), n) {
                Ok(r) => {
                    assert(position_views(prev) + (u64_views(list@) + r) =~= position_views(resolved@) + r);
                },
                Err(_) => {},
            }
        }
        i += 1;
    }
    proof {
        assert(sels.skip(i as int) =~= Seq::<Selector>::empty());
        assert(position_views(resolved@) + Seq::<nat>::empty() =~= position_views(resolved@));
    }
    Ok(resolved)
}

/// Resolves every selector against one record, to the fields (or, for
/// selector `0`, the raw record) it stands for.
pub fn resolve_selectors<'a>(program: &'a SelectorProgram, record: &'a [u8]) -> (res: Result<Vec<ResolvedItem<'a>>, SelectorResolveError>)
    ensures
        res matches Ok(items) ==> items_spec(program@, fields_of(record@), record@) == Ok::<Seq<ItemView>, SelectorResolveError>(item_views(items@)),
        res matches Err(e) ==> items_spec(program@, fields_of(record@), record@) == Err::<Seq<ItemView>, SelectorResolveError>(e),
{
    let fields = split_fields(record).collect();
    let ghost fv = slice_views(fields@);
    let count = fields.len();
    let selectors = program.selectors();
    let ghost sels = program@;
    let mut resolved: Vec<ResolvedItem<'a>> = Vec::new();
    let mut i: usize = 0;
    proof {
        assert(sels.skip(0) =~= sels);
        match items_spec(sels, fv, record@) {
            Ok(r) => {
                assert(item_views(resolved@) + r =~= r);
            },
            Err(_) => {},
        }
    }
    while i < selectors.len()
        invariant
            0 <= i <= sels.len(),
            selectors@ == sels,
            sels == program@,
            fv == slice_views(fields@),
            fv == fields_of(record@),
            count == fields@.len(),
            items_spec(sels, fv, record@) == prepend_ok(item_views(resolved@), items_spec(sels.skip(i as int), fv, record@)),
        decreases sels.len() - i,
    {
        let ghost rest = sels.skip(i as int);
        assert(rest[0] == sels[i as int]);
        assert(rest.drop_first() =~= sels.skip(i + 1));
        let ghost prev = resolved@;
        let ghost step: Seq<ItemView>;
        match &selectors[i] {
            Selector::RawRecord => {
                resolved.push(ResolvedItem::RawRecord(record));
                proof {
                    step = seq![ItemView::RawRecord(record@)];
                    assert(item_views(resolved@) =~= item_views(prev) + step);
                }
            },
            sel => {
                let list = match selector_position_list(sel, count) {
                    Ok(list) => list,
                    Err(e) => {
                        assert(selector_items(sels[i as int], fv, record@) == Err::<Seq<ItemView>, SelectorResolveError>(e));
                        assert(items_spec(rest, fv, record@) == Err::<Seq<ItemView>, SelectorResolveError>(e));
                        return Err(e);
                    },
                };
                let mut j: usize = 0;
                while j < list.len()
                    invariant
                        0 <= j <= list@.len(),
                        count == fields@.len(),
                        forall|k: int| 0 <= k < list@.len() ==> 1 <= #[trigger] list@[k] <= count,
                        item_views(resolved@) == item_views(prev) + field_items(u64_views(list@), slice_views(fields@)).take(j as int),
                    decreases list@.len() - j,
                {
                    let ghost before = resolved@;
                    let idx = (list[j] - 1) as usize;
                    resolved.push(ResolvedItem::Field(fields[idx]));
                    proof {
                        let fi = field_items(u64_views(list@), slice_views(fields@));
                        assert(fi[j as int] == ItemView::Field(fields@[idx as int]@));
                        assert(item_views(resolved@) =~= item_views(before).push(fi[j as int]));
                        assert(fi.take(j + 1) =~= fi.take(j as int).push(fi[j as int]));
                    }
                    j += 1;
                }
                proof {
                    step = field_items(u64_views(list@), fv);
                    assert(step.take(j as int) =~= step);
                }
            },
        }
        proof {
            assert(selector_items(sels[i as int], fv, record@) == Ok::<Seq<ItemView>, SelectorResolveError>(step));
            match items_spec(sels.skip(i + 1), fv, record@) {
                Ok(r) => {
                    assert(item_views(prev) + (step + r) =~= item_views(resolved@) + r);
                },
                Err(_) => {},
            }
        }
        i += 1;
    }
    proof {
        assert(sels.skip(i as int) =~= Seq::<Selector>::empty());
        assert(item_views(resolved@) + Seq::<ItemView>::empty() =~= item_views(resolved@));
    }
    Ok(resolved)
}

// ---------------------------------------------------------------------------
// Laws
// ---------------------------------------------------------------------------

/// Digit tokens are read by value: two digit tokens with the same value
/// mean the same selector term (`01` is `1`, `00` is `0`).
pub proof fn lemma_term_by_value(s: Seq<u8>, t: Seq<u8>, options: SelectorOptions)
    requires
        s.len() > 0,
        t.len() > 0,
        all_digits(s),
        all_digits(t),
        digits_value(s) == digits_value(t),
    ensures
        term_spec(s, options) == term_spec(t, options),
{
    lemma_digit_token(s);
    lemma_digit_token(t);
}

/// `01` is accepted and read as `1`: a leading zero does not change what a
/// digit token means.
pub proof fn lemma_term_leading_zero(s: Seq<u8>, options: SelectorOptions)
    requires
        s.len() > 0,
        all_digits(s),
    ensures
        term_spec(seq![0x30u8] + s, options) == term_spec(s, options),
{
    let t = seq![0x30u8] + s;
    crate::decimal::lemma_value_prepend_zero(s);
    assert(all_digits(t)) by {
        assert forall|i: int| 0 <= i < t.len() implies #[trigger] crate::digits::is_digit(t[i]) by {
            if i > 0 {
                assert(t[i] == s[i - 1]);
            }
        }
    }
    lemma_term_by_value(t, s, options);
}

/// An inclusive range read from its end back to its start is the same range
/// reversed.
pub proof fn lemma_range_reverse(a: nat, b: nat)
    ensures
        range_positions(a, b) == range_positions(b, a).reverse(),
{
    assert(range_positions(a, b) =~= range_positions(b, a).reverse());
}

/// An inclusive range holds every position between its endpoints exactly
/// once, starting at its start and ending at its end.
pub proof fn lemma_range_shape(a: nat, b: nat)
    ensures
        range_positions(a, b).len() == (if a <= b { b - a + 1 } else { a - b + 1 }),
        range_positions(a, b)[0] == a,
        range_positions(a, b).last() == b,
        forall|p: nat| (a <= p <= b || b <= p <= a) ==> #[trigger] range_positions(a, b).contains(p),
        range_positions(a, b).no_duplicates(),
{
    let r = range_positions(a, b);
    assert forall|p: nat| (a <= p <= b || b <= p <= a) implies #[trigger] r.contains(p) by {
        if a <= b {
            assert(r[p - a] == p);
        } else {
            assert(r[a - p] == p);
        }
    }
}

/// The result of resolving two selector lists one after the other: the
/// first error, or both position lists in order.
pub open spec fn concat_results<T, E>(x: Result<Seq<T>, E>, y: Result<Seq<T>, E>) -> Result<Seq<T>, E> {
    match x {
        Err(e) => Err(e),
        Ok(p) => match y {
            Err(e) => Err(e),
            Ok(q) => Ok(p + q),
        },
    }
}

/// Selectors are resolved in the order given and duplicates are kept:
/// resolving two lists of selectors one after the other is resolving them
/// together.
pub proof fn lemma_positions_concat(s1: Seq<Selector>, s2: Seq<Selector>, count: nat)
    ensures
        positions_spec(s1 + s2, count) == concat_results(positions_spec(s1, count), positions_spec(s2, count)),
    decreases s1.len(),
{
    if s1.len() == 0 {
        assert(s1 + s2 =~= s2);
        match positions_spec(s2, count) {
            Ok(q) => {
                assert(Seq::<nat>::empty() + q =~= q);
            },
            Err(_) => {},
        }
    } else {
        assert((s1 + s2)[0] == s1[0]);
        assert((s1 + s2).drop_first() =~= s1.drop_first() + s2);
        lemma_positions_concat(s1.drop_first(), s2, count);
        match (selector_positions(s1[0], count), positions_spec(s1.drop_first(), count), positions_spec(s2, count)) {
            (Ok(a), Ok(b), Ok(c)) => {
                assert(a + (b + c) =~= (a + b) + c);
            },
            _ => {},
        }
    }
}

/// Selector tokens are parsed in the order given: parsing two token lists
/// one after the other is parsing them together.
pub proof fn lemma_selectors_concat(t1: Seq<Seq<u8>>, t2: Seq<Seq<u8>>, options: SelectorOptions)
    ensures
        selectors_spec(t1 + t2, options) == concat_results(selectors_spec(t1, options), selectors_spec(t2, options)),
    decreases t1.len(),
{
    if t1.len() == 0 {
        assert(t1 + t2 =~= t2);
        match selectors_spec(t2, options) {
            Ok(q) => {
                assert(Seq::<Selector>::empty() + q =~= q);
            },
            Err(_) => {},
        }
    } else {
        assert((t1 + t2)[0] == t1[0]);
        assert((t1 + t2).drop_first() =~= t1.drop_first() + t2);
        lemma_selectors_concat(t1.drop_first(), t2, options);
        match (selector_spec(t1[0], options), selectors_spec(t1.drop_first(), options), selectors_spec(t2, options)) {
            (Ok(a), Ok(b), Ok(c)) => {
                assert(seq![a] + (b + c) =~= (seq![a] + b) + c);
            },
            _ => {},
        }
    }
}

/// No selector of the list is `0`.
pub open spec fn without_raw_record(sels: Seq<Selector>) -> bool {
    forall|i: int| 0 <= i < sels.len() ==> !(#[trigger] sels[i] is RawRecord)
}

/// Without selector `0`, resolving to items is resolving to positions and
/// taking the fields there.
pub proof fn lemma_items_are_fields_at_positions(sels: Seq<Selector>, fields: Seq<Seq<u8>>, record: Seq<u8>)
    requires
        without_raw_record(sels),
    ensures
        items_spec(sels, fields, record) == (match positions_spec(sels, fields.len()) {
            Ok(ps) => Ok(field_items(ps, fields)),
            Err(e) => Err(e),
        }),
    decreases sels.len(),
{
    if sels.len() > 0 {
        let rest = sels.drop_first();
        assert(!(sels[0] is RawRecord));
        assert forall|i: int| 0 <= i < rest.len() implies !(#[trigger] rest[i] is RawRecord) by {
            assert(rest[i] == sels[i + 1]);
        }
        lemma_items_are_fields_at_positions(rest, fields, record);
        match (selector_positions(sels[0], fields.len()), positions_spec(rest, fields.len())) {
            (Ok(a), Ok(b)) => {
                assert(field_items(a, fields) + field_items(b, fields) =~= field_items(a + b, fields));
            },
            _ => {},
        }
    } else {
        assert(field_items(Seq::<nat>::empty(), fields) =~= Seq::<ItemView>::empty());
    }
}

/// Every position a selector list resolves to is a field of the record.
pub proof fn lemma_positions_in_range(sels: Seq<Selector>, count: nat)
    ensures
        positions_spec(sels, count) matches Ok(ps) ==> forall|i: int| 0 <= i < ps.len() ==> 1 <= #[trigger] ps[i] <= count,
    decreases sels.len(),
{
    if sels.len() > 0 {
        lemma_positions_in_range(sels.drop_first(), count);
        match (selector_positions(sels[0], count), positions_spec(sels.drop_first(), count)) {
            (Ok(a), Ok(b)) => {
                assert forall|i: int| 0 <= i < a.len() implies 1 <= #[trigger] a[i] <= count by {
                    match sels[0] {
                        Selector::Range(x, y) => {
                            let (px, py) = (expr_position(x, count)->Ok_0, expr_position(y, count)->Ok_0);
                            assert(a[i] == range_positions(px, py)[i]);
                        },
                        _ => {},
                    }
                }
                let ps = a + b;
                assert forall|i: int| 0 <= i < ps.len() implies 1 <= #[trigger] ps[i] <= count by {
                    if i < a.len() {
                        assert(ps[i] == a[i]);
                    } else {
                        assert(ps[i] == b[i - a.len()]);
                    }
                }
            },
            _ => {},
        }
    }
}

} // verus!
