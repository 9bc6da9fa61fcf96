//! `delr` and `selr`: drop or keep each record by whether one selected field
//! equals a given string.
//!
//! The selector is a single field (no range, no selector `0`); the
//! comparison is byte for byte. An empty string keeps every record, and the
//! selector is then not even read.
use vstd::prelude::*;

use crate::fields::fields_of;
use crate::selector::{
    field_items, item_views, items_spec, selector_positions, resolve_selectors, ItemView, ResolvedItem, Selector, SelectorProgram,
    SelectorResolveError,
};

verus! {

/// Whether the tokens `<selector> <string> [<file>]` name an input file: two
/// tokens read standard input, three name a file; any other count is a usage
/// error (`None`).
pub fn filter_has_file(token_count: usize) -> (res: Option<bool>)
    ensures
        res == (if token_count == 2 {
            Some(false)
        } else if token_count == 3 {
            Some(true)
        } else {
            None
        }),
{
    if token_count == 2 {
        Some(false)
    } else if token_count == 3 {
        Some(true)
    } else {
        None
    }
}

/// Why a record cannot be tested.
#[derive(Debug, Eq, PartialEq)]
pub enum FieldFilterError {
    /// The selector does not resolve against the record.
    Resolve(SelectorResolveError),
    /// The selector did not stand for exactly one field.
    NotOneField,
}

impl FieldFilterError {
    /// The message a command reports for this error.
    pub fn message(&self) -> (m: &'static str)
        ensures
            m@ == match self {
                FieldFilterError::Resolve(e) => match e {
                    SelectorResolveError::MissingField => "selector resolved to a non-existent field"@,
                    SelectorResolveError::NfResolvedToZero => "selector NF-<n> resolved to field 0"@,
                    SelectorResolveError::UnsupportedZero => "selector 0 cannot be resolved to a field position"@,
                },
                FieldFilterError::NotOneField => "internal error: selector did not resolve to exactly one field"@,
            },
    {
        match self {
            FieldFilterError::Resolve(e) => e.message(),
            FieldFilterError::NotOneField => "internal error: selector did not resolve to exactly one field",
        }
    }
}

/// Whether the one field the selector stands for equals the string.
pub open spec fn field_equals_spec(sels: Seq<Selector>, record: Seq<u8>, needle: Seq<u8>) -> Result<bool, FieldFilterError> {
    match items_spec(sels, fields_of(record), record) {
        Err(e) => Err(FieldFilterError::Resolve(e)),
        Ok(items) => if items.len() == 1 && items[0] is Field {
            Ok(items[0]->Field_0 == needle)
        } else {
            Err(FieldFilterError::NotOneField)
        },
    }
}

/// Tests whether the one field the selector stands for equals the string.
pub fn selected_field_equals(program: &SelectorProgram, record: &[u8], needle: &[u8]) -> (res: Result<bool, FieldFilterError>)
    ensures
        res == field_equals_spec(program@, record@, needle@),
{
    let items = match resolve_selectors(program, record) {
        Ok(items) => items,
        Err(e) => return Err(FieldFilterError::Resolve(e)),
    };
    if items.len() != 1 {
        return Err(FieldFilterError::NotOneField);
    }
    match items[0] {
        ResolvedItem::Field(field) => {
            assert(item_views(items@)[0] == ItemView::Field(field@));
            Ok(crate::selector::bytes_eq(field, needle))
        },
        ResolvedItem::RawRecord(_) => Err(FieldFilterError::NotOneField),
    }
}

/// Whether `delr` keeps a record: every record for an empty string,
/// otherwise those whose selected field differs from the string.
pub open spec fn delr_keeps_spec(sels: Seq<Selector>, record: Seq<u8>, needle: Seq<u8>) -> Result<bool, FieldFilterError> {
    if needle.len() == 0 {
        Ok(true)
    } else {
        match field_equals_spec(sels, record, needle) {
            Ok(eq) => Ok(!eq),
            Err(e) => Err(e),
        }
    }
}

/// Whether `selr` keeps a record: every record for an empty string,
/// otherwise those whose selected field equals the string.
pub open spec fn selr_keeps_spec(sels: Seq<Selector>, record: Seq<u8>, needle: Seq<u8>) -> Result<bool, FieldFilterError> {
    if needle.len() == 0 {
        Ok(true)
    } else {
        field_equals_spec(sels, record, needle)
    }
}

/// Decides whether `delr` keeps one record.
pub fn delr_keeps_record(program: &SelectorProgram, record: &[u8], needle: &[u8]) -> (res: Result<bool, FieldFilterError>)
    ensures
        res == delr_keeps_spec(program@, record@, needle@),
{
    if needle.len() == 0 {
        return Ok(true);
    }
    match selected_field_equals(program, record, needle) {
        Ok(eq) => Ok(!eq),
        Err(e) => Err(e),
    }
}

/// Decides whether `selr` keeps one record.
pub fn selr_keeps_record(program: &SelectorProgram, record: &[u8], needle: &[u8]) -> (res: Result<bool, FieldFilterError>)
    ensures
        res == selr_keeps_spec(program@, record@, needle@),
{
    if needle.len() == 0 {
        return Ok(true);
    }
    selected_field_equals(program, record, needle)
}

/// For a non-empty string, `delr` and `selr` split the records between
/// them: each record that can be tested is kept by exactly one of the two.
pub proof fn lemma_delr_selr_complement(sels: Seq<Selector>, record: Seq<u8>, needle: Seq<u8>)
    requires
        needle.len() > 0,
    ensures
        delr_keeps_spec(sels, record, needle) matches Ok(d) ==> selr_keeps_spec(sels, record, needle) == Ok::<bool, FieldFilterError>(!d),
        delr_keeps_spec(sels, record, needle) is Err <==> selr_keeps_spec(sels, record, needle) is Err,
{
}

/// The test is byte equality: where the selector stands for one field, the
/// result is whether that field has the string's length and the same byte
/// at every position (no case folding or other normalisation).
pub proof fn lemma_field_equals_is_byte_equality(sels: Seq<Selector>, record: Seq<u8>, needle: Seq<u8>, field: Seq<u8>)
    requires
        items_spec(sels, fields_of(record), record) == Ok::<Seq<ItemView>, SelectorResolveError>(
            seq![ItemView::Field(field)],
        ),
    ensures
        field_equals_spec(sels, record, needle) == Ok::<bool, FieldFilterError>(
            field.len() == needle.len() && forall|i: int| 0 <= i < needle.len() ==> field[i] == needle[i],
        ),
{
    let items = seq![ItemView::Field(field)];
    assert(items[0] == ItemView::Field(field));
    if field.len() == needle.len() && forall|i: int| 0 <= i < needle.len() ==> field[i] == needle[i] {
        assert(field =~= needle);
    }
}

/// For a non-empty string and a field number within the record, `selr`
/// keeps the record exactly when the field at that number is, byte for
/// byte, the string, and `delr` keeps it exactly when it is not.
pub proof fn lemma_filters_by_field_number(n: u64, record: Seq<u8>, needle: Seq<u8>)
    requires
        1 <= n <= fields_of(record).len(),
        needle.len() > 0,
    ensures
        ({
            let f = fields_of(record)[n - 1];
            let same = f.len() == needle.len() && forall|i: int| 0 <= i < needle.len() ==> f[i] == needle[i];
            &&& selr_keeps_spec(seq![Selector::FieldNumber(n)], record, needle) == Ok::<bool, FieldFilterError>(same)
            &&& delr_keeps_spec(seq![Selector::FieldNumber(n)], record, needle) == Ok::<bool, FieldFilterError>(!same)
        }),
{
    let fields = fields_of(record);
    let sels = seq![Selector::FieldNumber(n)];
    let f = fields[n - 1];
    assert(sels[0] == Selector::FieldNumber(n));
    assert(sels.drop_first() =~= Seq::<Selector>::empty());
    assert(items_spec(sels.drop_first(), fields, record) == Ok::<Seq<ItemView>, SelectorResolveError>(Seq::empty()));
    assert(selector_positions(Selector::FieldNumber(n), fields.len()) == Ok::<Seq<nat>, SelectorResolveError>(seq![n as nat]));
    assert(field_items(seq![n as nat], fields) =~= seq![ItemView::Field(f)]);
    assert(seq![ItemView::Field(f)] + Seq::<ItemView>::empty() =~= seq![ItemView::Field(f)]);
    lemma_field_equals_is_byte_equality(sels, record, needle, f);
}

/// What `delr` (`drop_equal`) or `selr` writes for a sequence of records:
/// the records it keeps, in order and as read; or the first error.
pub open spec fn filter_run(sels: Seq<Selector>, records: Seq<Seq<u8>>, needle: Seq<u8>, drop_equal: bool) -> Result<Seq<Seq<u8>>, FieldFilterError>
    decreases records.len(),
{
    if records.len() == 0 {
        Ok(Seq::empty())
    } else {
        let keep = if drop_equal {
            delr_keeps_spec(sels, records[0], needle)
        } else {
            selr_keeps_spec(sels, records[0], needle)
        };
        match keep {
            Err(e) => Err(e),
            Ok(k) => match filter_run(sels, records.drop_first(), needle, drop_equal) {
                Err(e) => Err(e),
                Ok(out) => Ok(
                    if k {
                        seq![records[0]] + out
                    } else {
                        out
                    },
                ),
            },
        }
    }
}

/// With an empty string, `delr` and `selr` write every record as read.
pub proof fn lemma_empty_string_keeps_all(sels: Seq<Selector>, records: Seq<Seq<u8>>, drop_equal: bool)
    ensures
        filter_run(sels, records, Seq::empty(), drop_equal) == Ok::<Seq<Seq<u8>>, FieldFilterError>(records),
    decreases records.len(),
{
    if records.len() > 0 {
        lemma_empty_string_keeps_all(sels, records.drop_first(), drop_equal);
        assert(seq![records[0]] + records.drop_first() =~= records);
    } else {
        assert(records =~= Seq::<Seq<u8>>::empty());
    }
}

/// For a non-empty string, `delr` and `selr` divide the records between
/// them: both fail on the same input, and otherwise every record is written
/// by exactly one of the two.
pub proof fn lemma_delr_selr_partition(sels: Seq<Selector>, records: Seq<Seq<u8>>, needle: Seq<u8>)
    requires
        needle.len() > 0,
    ensures
        filter_run(sels, records, needle, true) is Err <==> filter_run(sels, records, needle, false) is Err,
        filter_run(sels, records, needle, true) matches Ok(d) ==> (filter_run(sels, records, needle, false) matches Ok(k)
            && d.len() + k.len() == records.len()),
    decreases records.len(),
{
    if records.len() > 0 {
        lemma_delr_selr_complement(sels, records[0], needle);
        lemma_delr_selr_partition(sels, records.drop_first(), needle);
    }
}

} // verus!
