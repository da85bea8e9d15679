//! Moving one block into or out of a row of slots, in constant time.
use crate::model;
use crate::oblivious::{cmov_meta, cmov_value, ct_and, ct_eq, meta_is_vacant, meta_set_vacant, Meta};
use vstd::prelude::*;

verus! {

/// Takes block `query` out of the first slot that holds it and puts it into
/// the destination.
///
/// If `condition` is false, or the destination is not vacant, or no slot holds
/// the block, nothing changes. Otherwise the slot that the block is taken from
/// becomes vacant. Every slot is visited either way.
pub fn ct_find_and_remove<const VALUE_SIZE: usize>(
    condition: bool,
    query: &u64,
    dest_data: &mut [u8; VALUE_SIZE],
    dest_meta: &mut Meta,
    src_data: &mut [[u8; VALUE_SIZE]],
    src_meta: &mut [Meta],
)
    requires
        VALUE_SIZE % 64 == 0,
        old(src_data)@.len() == old(src_meta)@.len(),
    ensures
        final(src_data)@ == old(src_data)@,
        final(src_meta)@.len() == old(src_meta)@.len(),
        ({
            let row = model::slots(old(src_data)@, old(src_meta)@);
            let dest = model::slot(*old(dest_data), *old(dest_meta));
            let go = condition && dest.vacant();
            &&& model::slots(final(src_data)@, final(src_meta)@) == (if go {
                model::removed(row, *query)
            } else {
                row
            })
            &&& model::slot(*final(dest_data), *final(dest_meta)) == (if go {
                model::found(row, *query, dest)
            } else {
                dest
            })
        }),
{
    let ghost s0 = model::slots(old(src_data)@, old(src_meta)@);
    let ghost d0 = model::slot(*old(dest_data), *old(dest_meta));
    let ghost at = model::first_match(s0, *query, 0);
    proof {
        model::lemma_first_match(s0, *query, 0);
    }
    let mut pending: bool = ct_and(condition, meta_is_vacant(dest_meta));
    let ghost go = pending;
    let mut idx: usize = 0;
    while idx < src_meta.len()
        invariant
            VALUE_SIZE % 64 == 0,
            idx <= s0.len(),
            s0 == model::slots(old(src_data)@, old(src_meta)@),
            d0 == model::slot(*old(dest_data), *old(dest_meta)),
            go == (condition && d0.vacant()),
            at == model::first_match(s0, *query, 0),
            0 <= at <= s0.len(),
            at < s0.len() ==> s0[at].holds(*query),
            forall|i: int| 0 <= i < at ==> !(#[trigger] s0[i]).holds(*query),
            src_data@ == old(src_data)@,
            src_data@.len() == s0.len(),
            src_meta@.len() == s0.len(),
            pending == (go && idx <= at),
            model::slots(src_data@, src_meta@) == (if go && at < idx {
                model::removed(s0, *query)
            } else {
                s0
            }),
            model::slot(*dest_data, *dest_meta) == (if go && at < idx {
                s0[at]
            } else {
                d0
            }),
        decreases s0.len() - idx,
    {
        let ghost before = model::slots(src_data@, src_meta@);
        assert(before[idx as int] == model::slot(src_data@[idx as int], src_meta@[idx as int]));
        let test: bool = ct_and(
            ct_and(pending, ct_eq(*query, src_meta[idx].block_num)),
            !meta_is_vacant(&src_meta[idx]),
        );
        assert(test == (go && idx == at));
        cmov_meta(test, &src_meta[idx], dest_meta);
        cmov_value(test, &src_data[idx], dest_data);
        meta_set_vacant(test, &mut src_meta[idx]);
        pending = ct_and(pending, !test);
        assert(model::slots(src_data@, src_meta@) =~= (if test {
            before.update(idx as int, before[idx as int].vacated())
        } else {
            before
        }));
        idx = idx + 1;
    }
}

/// Puts a block into the first vacant slot.
///
/// If `condition` is false, or the source is vacant, or no slot is vacant,
/// nothing changes. Otherwise the source becomes vacant. Every slot is
/// visited either way.
pub fn ct_insert<const VALUE_SIZE: usize>(
    condition: bool,
    src_data: &[u8; VALUE_SIZE],
    src_meta: &mut Meta,
    dest_data: &mut [[u8; VALUE_SIZE]],
    dest_meta: &mut [Meta],
)
    requires
        VALUE_SIZE % 64 == 0,
        old(dest_data)@.len() == old(dest_meta)@.len(),
    ensures
        final(dest_data)@.len() == old(dest_data)@.len(),
        final(dest_meta)@.len() == old(dest_meta)@.len(),
        ({
            let row = model::slots(old(dest_data)@, old(dest_meta)@);
            let item = model::slot(*src_data, *old(src_meta));
            let moved = condition && !item.vacant() && model::has_room(row);
            &&& model::slots(final(dest_data)@, final(dest_meta)@) == (if moved {
                model::inserted(row, item)
            } else {
                row
            })
            &&& model::slot(*src_data, *final(src_meta)) == (if moved {
                item.vacated()
            } else {
                item
            })
        }),
{
    let ghost s0 = model::slots(old(dest_data)@, old(dest_meta)@);
    let ghost item = model::slot(*src_data, *old(src_meta));
    let ghost at = model::first_vacant(s0, 0);
    proof {
        model::lemma_first_vacant(s0, 0);
    }
    let mut pending: bool = ct_and(condition, !meta_is_vacant(src_meta));
    let ghost go = pending;
    let mut idx: usize = 0;
    while idx < dest_meta.len()
        invariant
            VALUE_SIZE % 64 == 0,
            idx <= s0.len(),
            s0 == model::slots(old(dest_data)@, old(dest_meta)@),
            item == model::slot(*src_data, *old(src_meta)),
            go == (condition && !item.vacant()),
            at == model::first_vacant(s0, 0),
            0 <= at <= s0.len(),
            at < s0.len() ==> s0[at].vacant(),
            forall|i: int| 0 <= i < at ==> !(#[trigger] s0[i]).vacant(),
            dest_data@.len() == s0.len(),
            dest_meta@.len() == s0.len(),
            pending == (go && idx <= at),
            model::slots(dest_data@, dest_meta@) == (if go && at < idx {
                s0.update(at, item)
            } else {
                s0
            }),
            model::slot(*src_data, *src_meta) == (if go && at < idx {
                item.vacated()
            } else {
                item
            }),
        decreases s0.len() - idx,
    {
        let ghost before = model::slots(dest_data@, dest_meta@);
        assert(before[idx as int] == model::slot(dest_data@[idx as int], dest_meta@[idx as int]));
        let test: bool = ct_and(pending, meta_is_vacant(&dest_meta[idx]));
        assert(test == (go && idx == at));
        cmov_meta(test, src_meta, &mut dest_meta[idx]);
        cmov_value(test, src_data, &mut dest_data[idx]);
        meta_set_vacant(test, src_meta);
        pending = ct_and(pending, !test);
        assert(model::slots(dest_data@, dest_meta@) =~= (if test {
            before.update(idx as int, item)
        } else {
            before
        }));
        idx = idx + 1;
    }
}

} // verus!
