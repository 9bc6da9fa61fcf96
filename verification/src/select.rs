//! `self`: write the selected fields of every record.
//!
//! The selected items are joined by single SPACE bytes, in selector order
//! with duplicates kept; selector `0` stands for the whole record as read.
use vstd::prelude::*;

use crate::fields::{fields_of, is_field, join_with_spaces, lemma_fields_shape, lemma_join_push, lemma_join_then_split, SPACE};
use crate::selector::{
    field_items, item_views, items_spec, lemma_items_are_fields_at_positions, positions_spec,
    resolve_selectors, without_raw_record, ItemView, ResolvedItem, Selector, SelectorProgram,
    SelectorResolveError,
};

verus! {

/// The bytes an item stands for.
pub open spec fn item_bytes(i: ItemView) -> Seq<u8> {
    match i {
        ItemView::Field(f) => f,
        ItemView::RawRecord(r) => r,
    }
}

pub open spec fn items_bytes(items: Seq<ItemView>) -> Seq<Seq<u8>> {
    items.map_values(|i: ItemView| item_bytes(i))
}

/// What `self` writes for one record (before its LF): the selected items
/// joined by single SPACE bytes; or the error of the first selector that
/// cannot be resolved.
pub open spec fn select_spec(sels: Seq<Selector>, record: Seq<u8>) -> Result<Seq<u8>, SelectorResolveError> {
    match items_spec(sels, fields_of(record), record) {
        Ok(items) => Ok(join_with_spaces(items_bytes(items))),
        Err(e) => Err(e),
    }
}

/// Selects the fields of one record and returns what is written for it,
/// without the LF.
pub fn select_fields(program: &SelectorProgram, record: &[u8]) -> (res: Result<Vec<u8>, SelectorResolveError>)
    ensures
        res matches Ok(out) ==> select_spec(program@, record@) == Ok::<Seq<u8>, SelectorResolveError>(out@),
        res matches Err(e) ==> select_spec(program@, record@) == Err::<Seq<u8>, SelectorResolveError>(e),
{
    let items = match resolve_selectors(program, record) {
        Ok(items) => items,
        Err(e) => return Err(e),
    };
    let ghost bytes = items_bytes(item_views(items@));
    let mut out: Vec<u8> = Vec::new();
    let mut i: usize = 0;
    while i < items.len()
        invariant
            0 <= i <= items@.len(),
            bytes == items_bytes(item_views(items@)),
            out@ == join_with_spaces(bytes.take(i as int)),
        decreases items@.len() - i,
    {
        let piece: &[u8] = match items[i] {
            ResolvedItem::Field(f) => f,
            ResolvedItem::RawRecord(r) => r,
        };
        assert(bytes[i as int] == piece@);
        let ghost prev = bytes.take(i as int);
        assert(bytes.take(i + 1) =~= prev.push(piece@));
        if i > 0 {
            out.push(SPACE);
            proof {
                lemma_join_push(prev, piece@);
            }
        } else {
            assert(prev.push(piece@) =~= seq![piece@]);
        }
        let ghost base = out@;
        let mut b: usize = 0;
        while b < piece.len()
            invariant
                0 <= b <= piece@.len(),
                out@ == base + piece@.take(b as int),
            decreases piece@.len() - b,
        {
            out.push(piece[b]);
            assert(piece@.take(b + 1) =~= piece@.take(b as int).push(piece@[b as int]));
            b += 1;
        }
        assert(piece@.take(b as int) =~= piece@);
        i += 1;
    }
    assert(bytes.take(i as int) =~= bytes);
    Ok(out)
}

/// Without selector `0`, what `self` writes for a record splits back into
/// exactly the fields at the positions the selectors resolve to.
pub proof fn lemma_select_resplits(sels: Seq<Selector>, record: Seq<u8>)
    requires
        without_raw_record(sels),
    ensures
        select_spec(sels, record) matches Ok(out) ==> ({
            let fields = fields_of(record);
            positions_spec(sels, fields.len()) matches Ok(ps)
                && fields_of(out) == ps.map_values(|p: nat| fields[p - 1])
        }),
{
    let fields = fields_of(record);
    lemma_items_are_fields_at_positions(sels, fields, record);
    if let Ok(ps) = positions_spec(sels, fields.len()) {
        crate::selector::lemma_positions_in_range(sels, fields.len());
        lemma_fields_shape(record);
        let selected = ps.map_values(|p: nat| fields[p - 1]);
        assert(items_bytes(field_items(ps, fields)) =~= selected);
        assert forall|i: int| 0 <= i < selected.len() implies is_field(#[trigger] selected[i]) by {
            assert(1 <= ps[i] <= fields.len());
            assert(is_field(fields[ps[i] - 1]));
        }
        lemma_join_then_split(selected);
    }
}

} // verus!
