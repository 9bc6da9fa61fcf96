//! `delf`: delete the selected fields of every record.
//!
//! The remaining fields are written in the order they come in, separated by
//! a single SPACE. Selectors may be ranges; selector `0` is refused.
use vstd::prelude::*;

use crate::fields::{fields_of, is_field, join_with_spaces, lemma_fields_shape, lemma_join_then_split, slice_views, split_fields, SPACE};
use crate::selector::{
    positions_spec, position_views, resolve_selector_positions, Selector, SelectorProgram,
    SelectorResolveError,
};

verus! {

/// For each field of a record with `count` fields, whether some position
/// names it.
pub open spec fn removed_mask(count: nat, ps: Seq<nat>) -> Seq<bool> {
    Seq::new(count, |i: int| ps.contains((i + 1) as nat))
}

/// The fields whose mask entry is false, in order.
pub open spec fn kept_fields(fields: Seq<Seq<u8>>, removed: Seq<bool>) -> Seq<Seq<u8>>
    decreases fields.len(),
{
    if fields.len() == 0 {
        Seq::empty()
    } else {
        let init = kept_fields(fields.drop_last(), removed);
        if removed[fields.len() - 1] {
            init
        } else {
            init.push(fields.last())
        }
    }
}

/// What `delf` writes for one record (before its LF): the fields that no
/// selector names, joined by single SPACE bytes; or the error of the first
/// selector that cannot be resolved.
pub open spec fn delete_fields_spec(sels: Seq<Selector>, record: Seq<u8>) -> Result<Seq<u8>, SelectorResolveError> {
    let fields = fields_of(record);
    match positions_spec(sels, fields.len()) {
        Ok(ps) => Ok(join_with_spaces(kept_fields(fields, removed_mask(fields.len(), ps)))),
        Err(e) => Err(e),
    }
}

/// Deletes the selected fields of one record and returns what is written for
/// it, without the LF.
pub fn delete_fields(program: &SelectorProgram, record: &[u8]) -> (res: Result<Vec<u8>, SelectorResolveError>)
    ensures
        res matches Ok(out) ==> delete_fields_spec(program@, record@) == Ok::<Seq<u8>, SelectorResolveError>(out@),
        res matches Err(e) ==> delete_fields_spec(program@, record@) == Err::<Seq<u8>, SelectorResolveError>(e),
{
    let fields = split_fields(record).collect();
    let ghost fv = slice_views(fields@);
    let count = fields.len();
    let positions = match resolve_selector_positions(program, record) {
        Ok(ps) => ps,
        Err(e) => return Err(e),
    };
    let ghost ps = position_views(positions@);
    proof {
        crate::selector::lemma_positions_in_range(program@, fv.len());
    }
    // Mark the fields that some selector names.
    let mut removed: Vec<bool> = Vec::new();
    let mut i: usize = 0;
    while i < count
        invariant
            0 <= i <= count,
            removed@.len() == i,
            forall|k: int| 0 <= k < i ==> !(#[trigger] removed@[k]),
        decreases count - i,
    {
        removed.push(false);
        i += 1;
    }
    let mut j: usize = 0;
    while j < positions.len()
        invariant
            0 <= j <= positions@.len(),
            removed@.len() == count,
            count == fv.len(),
            ps == position_views(positions@),
            forall|k: int| 0 <= k < ps.len() ==> 1 <= #[trigger] ps[k] <= count,
            forall|k: int| 0 <= k < count ==> #[trigger] removed@[k] == ps.take(j as int).contains((k + 1) as nat),
        decreases positions@.len() - j,
    {
        let number = positions[j].get();
        assert(ps[j as int] == number);
        let index = (number - 1) as usize;
        let ghost before = removed@;
        removed.set(index, true);
        proof {
            assert forall|k: int| 0 <= k < count implies #[trigger] removed@[k] == ps.take(j + 1).contains((k + 1) as nat) by {
                assert(ps.take(j + 1) =~= ps.take(j as int).push(ps[j as int]));
                if k == index {
                    assert(ps.take(j + 1)[j as int] == (k + 1) as nat);
                } else {
                    assert(removed@[k] == before[k]);
                    let pj = ps.take(j + 1);
                    if pj.contains((k + 1) as nat) {
                        let w = choose|w: int| 0 <= w < pj.len() && #[trigger] pj[w] == (k + 1) as nat;
                        assert(w != j);
                        assert(ps.take(j as int)[w] == (k + 1) as nat);
                    }
                }
            }
        }
        j += 1;
    }
    let ghost mask = removed_mask(fv.len(), ps);
    assert(ps.take(j as int) =~= ps);
    assert(removed@ =~= mask);
    // Write the remaining fields, separated by single spaces.
    let mut out: Vec<u8> = Vec::new();
    let mut wrote_any = false;
    let mut k: usize = 0;
    while k < count
        invariant
            0 <= k <= count,
            count == fv.len(),
            fv == slice_views(fields@),
            removed@ == mask,
            mask.len() == count,
            out@ == join_with_spaces(kept_fields(fv.take(k as int), mask)),
            wrote_any == (kept_fields(fv.take(k as int), mask).len() > 0),
        decreases count - k,
    {
        let ghost prev = kept_fields(fv.take(k as int), mask);
        assert(fv.take(k + 1).drop_last() =~= fv.take(k as int));
        assert(fv.take(k + 1).last() == fields@[k as int]@);
        if !removed[k] {
            let field: &[u8] = fields[k];
            if wrote_any {
                out.push(SPACE);
                proof {
                    crate::fields::lemma_join_push(prev, field@);
                }
            } else {
                assert(prev.push(field@) =~= seq![field@]);
            }
            let mut b: usize = 0;
            let ghost base = out@;
            while b < field.len()
                invariant
                    0 <= b <= field@.len(),
                    out@ == base + field@.take(b as int),
                decreases field@.len() - b,
            {
                out.push(field[b]);
                assert(field@.take(b + 1) =~= field@.take(b as int).push(field@[b as int]));
                b += 1;
            }
            assert(field@.take(b as int) =~= field@);
            wrote_any = true;
        }
        k += 1;
    }
    assert(fv.take(k as int) =~= fv);
    Ok(out)
}

/// What `delf` writes for a record splits back into exactly the fields that
/// no selector names.
pub proof fn lemma_delete_fields_resplits(sels: Seq<Selector>, record: Seq<u8>)
    ensures
        delete_fields_spec(sels, record) matches Ok(out) ==> ({
            let fields = fields_of(record);
            positions_spec(sels, fields.len()) matches Ok(ps)
                && fields_of(out) == kept_fields(fields, removed_mask(fields.len(), ps))
        }),
{
    let fields = fields_of(record);
    if let Ok(ps) = positions_spec(sels, fields.len()) {
        lemma_fields_shape(record);
        lemma_kept_are_fields(fields, removed_mask(fields.len(), ps));
        lemma_join_then_split(kept_fields(fields, removed_mask(fields.len(), ps)));
    }
}

/// The fields kept under a mask are exactly the fields at the positions
/// whose mask entry is false, in their order, whatever the fields hold:
/// `idx` lists those positions, rising, and each kept field is the field at
/// its position.
pub proof fn lemma_kept_positions(fields: Seq<Seq<u8>>, removed: Seq<bool>) -> (idx: Seq<int>)
    requires
        removed.len() >= fields.len(),
    ensures
        idx.len() == kept_fields(fields, removed).len(),
        forall|i: int| 0 <= i < idx.len() ==> 0 <= #[trigger] idx[i] < fields.len() && !removed[idx[i]]
            && kept_fields(fields, removed)[i] == fields[idx[i]],
        forall|i: int, j: int| 0 <= i < j < idx.len() ==> idx[i] < idx[j],
        forall|p: int| 0 <= p < fields.len() && !removed[p] ==> idx.contains(p),
    decreases fields.len(),
{
    if fields.len() == 0 {
        Seq::empty()
    } else {
        let n = fields.len() - 1;
        let init = fields.drop_last();
        let prev = lemma_kept_positions(init, removed);
        let ki = kept_fields(init, removed);
        let k = kept_fields(fields, removed);
        if removed[n] {
            assert forall|i: int| 0 <= i < prev.len() implies 0 <= #[trigger] prev[i] < fields.len() && !removed[prev[i]]
                && k[i] == fields[prev[i]] by {
                assert(init[prev[i]] == fields[prev[i]]);
            }
            assert forall|p: int| 0 <= p < fields.len() && !removed[p] implies prev.contains(p) by {
                assert(p < n);
            }
            prev
        } else {
            let idx = prev.push(n);
            assert forall|i: int| 0 <= i < idx.len() implies 0 <= #[trigger] idx[i] < fields.len() && !removed[idx[i]]
                && k[i] == fields[idx[i]] by {
                if i < prev.len() {
                    assert(idx[i] == prev[i]);
                    assert(k[i] == ki[i]);
                    assert(init[prev[i]] == fields[prev[i]]);
                } else {
                    assert(idx[i] == n);
                }
            }
            assert forall|i: int, j: int| 0 <= i < j < idx.len() implies idx[i] < idx[j] by {
                if j < prev.len() {
                    assert(idx[i] == prev[i] && idx[j] == prev[j]);
                } else {
                    assert(idx[i] == prev[i]);
                }
            }
            assert forall|p: int| 0 <= p < fields.len() && !removed[p] implies idx.contains(p) by {
                if p == n {
                    assert(idx[idx.len() - 1] == p);
                } else {
                    let w = choose|w: int| 0 <= w < prev.len() && prev[w] == p;
                    assert(idx[w] == p);
                }
            }
            idx
        }
    }
}

/// `delf` writes exactly the fields at the positions that no selector names,
/// in their order, whatever the fields hold: `idx` lists those positions,
/// rising, and the output splits into the fields at them.
pub proof fn lemma_delete_fields_keeps_unnamed(sels: Seq<Selector>, record: Seq<u8>) -> (idx: Seq<int>)
    requires
        delete_fields_spec(sels, record) is Ok,
    ensures
        ({
            let fields = fields_of(record);
            let out = fields_of(delete_fields_spec(sels, record)->Ok_0);
            let ps = positions_spec(sels, fields.len())->Ok_0;
            &&& positions_spec(sels, fields.len()) is Ok
            &&& idx.len() == out.len()
            &&& forall|i: int| 0 <= i < idx.len() ==> 0 <= #[trigger] idx[i] < fields.len()
                && !ps.contains((idx[i] + 1) as nat) && out[i] == fields[idx[i]]
            &&& forall|i: int, j: int| 0 <= i < j < idx.len() ==> idx[i] < idx[j]
            &&& forall|p: int| 0 <= p < fields.len() && !ps.contains((p + 1) as nat) ==> idx.contains(p)
        }),
{
    let fields = fields_of(record);
    let ps = positions_spec(sels, fields.len())->Ok_0;
    let mask = removed_mask(fields.len(), ps);
    lemma_delete_fields_resplits(sels, record);
    let idx = lemma_kept_positions(fields, mask);
    assert forall|p: int| 0 <= p < fields.len() && !ps.contains((p + 1) as nat) implies idx.contains(p) by {
        assert(!mask[p]);
    }
    idx
}

proof fn lemma_kept_are_fields(fields: Seq<Seq<u8>>, removed: Seq<bool>)
    requires
        forall|i: int| 0 <= i < fields.len() ==> is_field(#[trigger] fields[i]),
    ensures
        forall|i: int| 0 <= i < kept_fields(fields, removed).len() ==> is_field(#[trigger] kept_fields(fields, removed)[i]),
    decreases fields.len(),
{
    if fields.len() > 0 {
        let init = fields.drop_last();
        assert forall|i: int| 0 <= i < init.len() implies is_field(#[trigger] init[i]) by {
            assert(init[i] == fields[i]);
        }
        lemma_kept_are_fields(init, removed);
        assert(is_field(fields[fields.len() - 1]));
        let ki = kept_fields(init, removed);
        let k = kept_fields(fields, removed);
        assert forall|i: int| 0 <= i < k.len() implies is_field(#[trigger] k[i]) by {
            if i < ki.len() {
                assert(k[i] == ki[i]);
            } else {
                assert(k[i] == fields.last());
            }
        }
    }
}

/// Which fields `delf` deletes depends only on the set of positions the
/// selectors name: naming a field twice, or naming fields in another order,
/// deletes the same fields.
pub proof fn lemma_mask_depends_on_named_set(count: nat, ps: Seq<nat>, qs: Seq<nat>)
    requires
        ps.to_set() == qs.to_set(),
    ensures
        removed_mask(count, ps) == removed_mask(count, qs),
{
    assert forall|i: int| 0 <= i < count implies #[trigger] removed_mask(count, ps)[i] == removed_mask(count, qs)[i] by {
        let x = (i + 1) as nat;
        assert(ps.to_set().contains(x) == ps.contains(x));
        assert(qs.to_set().contains(x) == qs.contains(x));
    }
    assert(removed_mask(count, ps) =~= removed_mask(count, qs));
}

} // verus!
