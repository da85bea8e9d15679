//! The branch that is checked out of storage, and moving blocks along it.
use crate::details;
use crate::model;
use crate::model::Slot;
use crate::oblivious::{
    cmov_meta, cmov_u64, cmov_value, ct_and, ct_eq, ct_lt, meta_is_vacant, meta_set_vacant, Meta,
};
use crate::packing;
use crate::storage;
use crate::storage::{ORAMStorage, StorageCall};
use crate::tree;
use vstd::prelude::*;

verus! {

/// A branch that is checked out of storage: its leaf, and the buckets from the
/// leaf up to the root.
///
/// It is kept between checkouts, so that its buffers are allocated once.
pub struct BranchCheckout<const VALUE_SIZE: usize, const Z: usize> {
    /// The leaf of the branch that is checked out, 0 if there is none.
    pub(crate) leaf: u64,
    /// The data of the buckets.
    pub(crate) data: Vec<[[u8; VALUE_SIZE]; Z]>,
    /// The metadata of the buckets.
    pub(crate) meta: Vec<[Meta; Z]>,
}

impl<const VALUE_SIZE: usize, const Z: usize> Default for BranchCheckout<VALUE_SIZE, Z> {
    /// No branch, and no buffers yet.
    fn default() -> (branch: Self)
        ensures
            branch.wf(),
            branch.leaf() == 0,
            branch.buckets().len() == 0,
    {
        BranchCheckout { leaf: 0, data: Vec::new(), meta: Vec::new() }
    }
}

impl<const VALUE_SIZE: usize, const Z: usize> BranchCheckout<VALUE_SIZE, Z> {
    /// The leaf of the branch that is checked out, 0 if there is none.
    pub closed spec fn leaf(&self) -> u64 {
        self.leaf
    }

    /// The buckets, the leaf's first.
    pub closed spec fn buckets(&self) -> Seq<Seq<Slot>> {
        model::buckets(self.data@, self.meta@)
    }

    /// A branch that is checked out has a bucket for its leaf and for every
    /// node above it.
    pub closed spec fn wf(&self) -> bool {
        &&& self.data@.len() == self.meta@.len()
        &&& self.leaf != 0 ==> self.meta@.len() == tree::height(self.leaf as nat) + 1
    }

    /// What a branch that is checked out looks like.
    pub proof fn lemma_wf(&self)
        requires
            self.wf(),
        ensures
            self.leaf() != 0 ==> self.buckets().len() == tree::height(self.leaf() as nat) + 1,
            forall|j: int|
                0 <= j < self.buckets().len() ==> (#[trigger] self.buckets()[j]).len() == Z,
    {
    }

    /// How the buckets are stored.
    pub(crate) proof fn lemma_stored(&self)
        requires
            self.wf(),
        ensures
            self.data@.len() == self.buckets().len(),
            self.meta@.len() == self.buckets().len(),
            forall|j: int|
                0 <= j < self.buckets().len() ==> #[trigger] self.buckets()[j] == model::slots(
                    self.data@[j]@,
                    self.meta@[j]@,
                ),
    {
    }

    /// Takes block `query` out of the first bucket that holds it and puts it
    /// into the destination.
    ///
    /// If `condition` is false, or the destination is not vacant, or no bucket
    /// holds the block, nothing changes.
    pub fn ct_find_and_remove(
        &mut self,
        condition: bool,
        query: &u64,
        dest_data: &mut [u8; VALUE_SIZE],
        dest_meta: &mut Meta,
    )
        requires
            VALUE_SIZE % 64 == 0,
            old(self).wf(),
        ensures
            final(self).wf(),
            final(self).leaf() == old(self).leaf(),
            ({
                let b = old(self).buckets();
                let dest = model::slot(*old(dest_data), *old(dest_meta));
                let go = condition && dest.vacant();
                &&& final(self).buckets() == (if go {
                    packing::branch_removed(b, *query)
                } else {
                    b
                })
                &&& model::slot(*final(dest_data), *final(dest_meta)) == (if go {
                    packing::branch_found(b, *query, dest)
                } else {
                    dest
                })
            }),
    {
        let ghost b0 = self.buckets();
        let ghost d0 = model::slot(*dest_data, *dest_meta);
        let ghost go = condition && d0.vacant();
        let ghost at = packing::first_holder(b0, *query, 0);
        proof {
            packing::lemma_first_holder(b0, *query, 0);
        }
        let mut idx: usize = 0;
        while idx < self.data.len()
            invariant
                VALUE_SIZE % 64 == 0,
                self.wf(),
                self.leaf == old(self).leaf,
                b0 == old(self).buckets(),
                go == (condition && d0.vacant()),
                0 <= at <= b0.len(),
                at < b0.len() ==> packing::bucket_holds(b0[at], *query),
                forall|m: int| 0 <= m < at ==> !packing::bucket_holds(#[trigger] b0[m], *query),
                idx <= b0.len(),
                self.meta@.len() == b0.len(),
                forall|j: int|
                    0 <= j < b0.len() ==> model::slots(
                        (#[trigger] self.data@[j])@,
                        self.meta@[j]@,
                    ) == (if go && j == at && at < idx {
                        model::removed(b0[j], *query)
                    } else {
                        b0[j]
                    }),
                model::slot(*dest_data, *dest_meta) == (if go && at < idx {
                    model::found(b0[at], *query, d0)
                } else {
                    d0
                }),
            decreases b0.len() - idx,
        {
            proof {
                assert(model::slots(self.data@[idx as int]@, self.meta@[idx as int]@)
                    == b0[idx as int]);
                model::lemma_first_match(b0[idx as int], *query, 0);
                if at < idx {
                    model::lemma_first_match(b0[at], *query, 0);
                }
            }
            details::ct_find_and_remove(
                condition,
                query,
                dest_data,
                dest_meta,
                &mut self.data[idx],
                &mut self.meta[idx],
            );
            idx = idx + 1;
        }
        proof {
            let after = if go {
                packing::branch_removed(b0, *query)
            } else {
                b0
            };
            assert forall|j: int| 0 <= j < b0.len() implies #[trigger] self.buckets()[j]
                == after[j] by {
                assert(self.buckets()[j] == model::slots(self.data@[j]@, self.meta@[j]@));
            }
            assert(self.buckets() =~= after);
        }
    }

    /// Puts a block into the branch, as close to the leaf as it may stand and
    /// as there is room.
    ///
    /// If `condition` is false, or the source is vacant, or no bucket in which
    /// the block may stand has room, nothing changes. Otherwise the source
    /// becomes vacant.
    pub fn ct_insert(
        &mut self,
        condition: bool,
        src_data: &[u8; VALUE_SIZE],
        src_meta: &mut Meta,
    )
        requires
            VALUE_SIZE % 64 == 0,
            old(self).wf(),
            old(self).leaf() != 0,
        ensures
            final(self).wf(),
            final(self).leaf() == old(self).leaf(),
            ({
                let b = old(self).buckets();
                let item = model::slot(*src_data, *old(src_meta));
                let from = packing::legal_index(item.leaf_num, old(self).leaf(), b.len());
                let moved = condition && !item.vacant() && packing::first_open(
                    b,
                    from,
                    b.len() as int,
                ) < b.len();
                &&& final(self).buckets() == (if moved {
                    packing::placed(b, item, from)
                } else {
                    b
                })
                &&& model::slot(*src_data, *final(src_meta)) == (if moved {
                    item.vacated()
                } else {
                    item
                })
            }),
    {
        let pending: bool = ct_and(condition, !meta_is_vacant(src_meta));
        let lowest: usize = self.lowest_height_legal_index(src_meta.leaf_num);
        Self::insert_into_branch_suffix(
            pending,
            src_data,
            src_meta,
            lowest,
            self.data.as_mut_slice(),
            self.meta.as_mut_slice(),
        );
    }

    /// Packs the branch: from the leaf upwards, moves every block as close to
    /// the leaf as it may stand and as there is room.
    pub fn pack(&mut self)
        requires
            VALUE_SIZE % 64 == 0,
            old(self).wf(),
            old(self).leaf() != 0,
        ensures
            final(self).wf(),
            final(self).leaf() == old(self).leaf(),
            final(self).buckets() == packing::packed(
                old(self).buckets(),
                old(self).leaf(),
                old(self).buckets().len() as int,
            ),
    {
        let ghost b0 = self.buckets();
        let leaf: u64 = self.leaf;
        let data_len: usize = self.data.len();
        let mut bucket_num: usize = 1;
        while bucket_num < data_len
            invariant
                VALUE_SIZE % 64 == 0,
                self.wf(),
                self.leaf == leaf,
                leaf == old(self).leaf,
                leaf != 0,
                b0 == old(self).buckets(),
                data_len == b0.len(),
                self.meta@.len() == data_len,
                1 <= bucket_num,
                bucket_num <= data_len,
                forall|j: int| 0 <= j < b0.len() ==> (#[trigger] b0[j]).len() == Z,
                self.buckets() == packing::packed(b0, leaf, bucket_num as int),
            decreases data_len - bucket_num,
        {
            let ghost b1 = self.buckets();
            let mut idx: usize = 0;
            while idx < Z
                invariant
                    VALUE_SIZE % 64 == 0,
                    self.wf(),
                    self.leaf == leaf,
                    leaf != 0,
                    self.meta@.len() == data_len,
                    1 <= bucket_num < data_len,
                    idx <= Z,
                    self.buckets() == packing::pack_bucket(
                        b1,
                        leaf,
                        bucket_num as int,
                        idx as int,
                    ),
                decreases Z - idx,
            {
                self.pack_slot(bucket_num, idx);
                idx = idx + 1;
            }
            bucket_num = bucket_num + 1;
        }
    }

    /// Moves one block of the branch as close to the leaf as it may stand and
    /// as there is room.
    fn pack_slot(&mut self, bucket_num: usize, idx: usize)
        requires
            VALUE_SIZE % 64 == 0,
            old(self).wf(),
            old(self).leaf() != 0,
            bucket_num < old(self).buckets().len(),
            idx < Z,
        ensures
            final(self).wf(),
            final(self).leaf() == old(self).leaf(),
            final(self).buckets() == packing::pack_slot(
                old(self).buckets(),
                old(self).leaf(),
                bucket_num as int,
                idx as int,
            ),
    {
        let ghost b0 = self.buckets();
        let ghost n = bucket_num as int;
        let ghost i = idx as int;
        let ghost x = b0[n][i];
        let ghost from = packing::legal_index(x.leaf_num, self.leaf, b0.len());
        let ghost below = b0.take(n);
        let ghost at = packing::first_open(below, from, n);
        proof {
            packing::lemma_legal_index(x.leaf_num, self.leaf, b0.len());
            packing::lemma_first_open(below, from, n);
            packing::lemma_first_open_same(below, b0, from, n);
        }
        let leaf: u64 = self.leaf;
        let data_len: usize = self.data.len();
        let (lower_data, upper_data) = self.data.split_at_mut(bucket_num);
        let (lower_meta, upper_meta) = self.meta.split_at_mut(bucket_num);
        proof {
            assert forall|j: int| 0 <= j < n implies #[trigger] model::buckets(
                lower_data@,
                lower_meta@,
            )[j] == below[j] by {
                assert(below[j] == b0[j]);
            }
            assert(model::buckets(lower_data@, lower_meta@) =~= below);
            assert(model::slot(upper_data@[0]@[i], upper_meta@[0]@[i]) == x);
        }
        let lowest: usize = Self::lowest_height_legal_index_impl(
            upper_meta[0][idx].leaf_num,
            leaf,
            data_len,
        );
        Self::insert_into_branch_suffix(
            true,
            &upper_data[0][idx],
            &mut upper_meta[0][idx],
            lowest,
            lower_data,
            lower_meta,
        );
        proof {
            let after = packing::pack_slot(b0, leaf, n, i);
            let moved = !x.vacant() && at < n;
            assert forall|j: int| 0 <= j < b0.len() implies #[trigger] self.buckets()[j]
                == after[j] by {
                assert(self.buckets()[j] == model::slots(self.data@[j]@, self.meta@[j]@));
                if j < n {
                    assert(self.buckets()[j] == model::buckets(lower_data@, lower_meta@)[j]);
                } else {
                    assert(self.buckets()[j] =~= after[j]);
                }
            }
            assert(self.buckets() =~= after);
        }
    }

    /// Checks a branch out of storage, in one call.
    pub fn checkout<S: ORAMStorage<VALUE_SIZE, Z>>(&mut self, storage: &mut S, leaf: u64)
        requires
            old(self).wf(),
            old(self).leaf() == 0,
            old(storage).wf(),
            old(storage).checked_out() is None,
            0 < leaf < old(storage).nodes().len(),
        ensures
            final(self).wf(),
            final(self).leaf() == leaf,
            final(self).buckets() == storage::branch_of(old(storage).nodes(), leaf),
            final(storage).wf(),
            final(storage).nodes() == old(storage).nodes(),
            final(storage).checked_out() == Some(leaf),
            final(storage).calls() == old(storage).calls().push(StorageCall::Checkout(leaf)),
    {
        proof {
            tree::lemma_height_u64(leaf);
        }
        let len: usize = tree::node_height(leaf) as usize + 1;
        self.data.truncate(len);
        self.meta.truncate(len);
        while self.data.len() < len
            invariant
                self.data@.len() == self.meta@.len(),
                self.data@.len() <= len,
            decreases len - self.data@.len(),
        {
            self.data.push([[0u8; VALUE_SIZE]; Z]);
            self.meta.push([Meta { leaf_num: 0, block_num: 0 }; Z]);
        }
        storage.checkout(leaf, self.data.as_mut_slice(), self.meta.as_mut_slice());
        self.leaf = leaf;
    }

    /// Checks the branch into storage, in one call. What the buffers hold
    /// afterwards is not specified.
    pub fn checkin<S: ORAMStorage<VALUE_SIZE, Z>>(&mut self, storage: &mut S)
        requires
            old(self).wf(),
            old(self).leaf() != 0,
            old(storage).wf(),
            old(storage).checked_out() == Some(old(self).leaf()),
        ensures
            final(self).wf(),
            final(self).leaf() == 0,
            final(storage).wf(),
            final(storage).nodes() == storage::with_branch(
                old(storage).nodes(),
                old(self).leaf(),
                old(self).buckets(),
            ),
            final(storage).checked_out() is None,
            final(storage).calls() == old(storage).calls().push(
                StorageCall::Checkin(old(self).leaf()),
            ),
    {
        storage.checkin(self.leaf, self.data.as_mut_slice(), self.meta.as_mut_slice());
        self.leaf = 0;
    }

    /// Moves the block in slot `chunk` of bucket `bucket_num` to the vacant
    /// slot `vacant_chunk` of bucket `target`, which is closer to the leaf.
    pub(crate) fn relocate(
        &mut self,
        bucket_num: usize,
        chunk: usize,
        target: usize,
        vacant_chunk: usize,
    )
        requires
            VALUE_SIZE % 64 == 0,
            old(self).wf(),
            target < bucket_num < old(self).buckets().len(),
            chunk < Z,
            vacant_chunk < Z,
            vacant_chunk == model::first_vacant(old(self).buckets()[target as int], 0),
        ensures
            final(self).wf(),
            final(self).leaf() == old(self).leaf(),
            final(self).buckets() == packing::relocated(
                old(self).buckets(),
                bucket_num as int,
                chunk as int,
                target as int,
            ),
    {
        let ghost b0 = self.buckets();
        let (lower_data, upper_data) = self.data.split_at_mut(bucket_num);
        let (lower_meta, upper_meta) = self.meta.split_at_mut(bucket_num);
        cmov_meta(true, &upper_meta[0][chunk], &mut lower_meta[target][vacant_chunk]);
        cmov_value(true, &upper_data[0][chunk], &mut lower_data[target][vacant_chunk]);
        meta_set_vacant(true, &mut upper_meta[0][chunk]);
        proof {
            let after = packing::relocated(
                b0,
                bucket_num as int,
                chunk as int,
                target as int,
            );
            assert forall|j: int| 0 <= j < b0.len() implies #[trigger] self.buckets()[j]
                == after[j] by {
                assert(b0[j] == model::slots(old(self).data@[j]@, old(self).meta@[j]@));
                assert(self.buckets()[j] =~= after[j]);
            }
            assert(self.buckets() =~= after);
        }
    }

    /// Moves a block to the vacant slot `vacant_chunk` of bucket `target`.
    pub(crate) fn fill(
        &mut self,
        src_data: &[u8; VALUE_SIZE],
        src_meta: &mut Meta,
        target: usize,
        vacant_chunk: usize,
    )
        requires
            VALUE_SIZE % 64 == 0,
            old(self).wf(),
            target < old(self).buckets().len(),
            vacant_chunk < Z,
            vacant_chunk == model::first_vacant(old(self).buckets()[target as int], 0),
        ensures
            final(self).wf(),
            final(self).leaf() == old(self).leaf(),
            final(self).buckets() == old(self).buckets().update(
                target as int,
                model::inserted(
                    old(self).buckets()[target as int],
                    model::slot(*src_data, *old(src_meta)),
                ),
            ),
            model::slot(*src_data, *final(src_meta)) == model::slot(
                *src_data,
                *old(src_meta),
            ).vacated(),
    {
        let ghost b0 = self.buckets();
        let ghost item = model::slot(*src_data, *src_meta);
        cmov_meta(true, src_meta, &mut self.meta[target][vacant_chunk]);
        cmov_value(true, src_data, &mut self.data[target][vacant_chunk]);
        meta_set_vacant(true, src_meta);
        proof {
            let after = b0.update(target as int, model::inserted(b0[target as int], item));
            assert forall|j: int| 0 <= j < b0.len() implies #[trigger] self.buckets()[j]
                == after[j] by {
                assert(b0[j] == model::slots(old(self).data@[j]@, old(self).meta@[j]@));
                assert(self.buckets()[j] =~= after[j]);
            }
            assert(self.buckets() =~= after);
        }
    }

    /// The first bucket of this branch in which a block that travels to
    /// `query` may stand; the root's if `query` is 0.
    pub(crate) fn lowest_height_legal_index(&self, query: u64) -> (index: usize)
        requires
            self.wf(),
            self.leaf() != 0,
        ensures
            index == packing::legal_index(query, self.leaf(), self.buckets().len()),
    {
        proof {
            packing::lemma_legal_index(query, self.leaf, self.data@.len());
        }
        Self::lowest_height_legal_index_impl(query, self.leaf, self.data.len())
    }

    /// The first bucket of the branch of `leaf`, of `data_len` buckets, in
    /// which a block that travels to `query` may stand; the root's if `query`
    /// is 0.
    pub(crate) fn lowest_height_legal_index_impl(query: u64, leaf: u64, data_len: usize) -> (index:
        usize)
        requires
            leaf != 0,
            packing::legal_index(query, leaf, data_len as nat) >= 0,
        ensures
            index == packing::legal_index(query, leaf, data_len as nat),
    {
        let mut target: u64 = query;
        cmov_u64(ct_eq(query, 0), &1, &mut target);
        let common_ancestor_height: usize = tree::common_ancestor_height(leaf, target) as usize;
        data_len - 1 - common_ancestor_height
    }

    /// Puts a block into the first vacant slot from bucket `insert_after_index`
    /// on. The destination may be the buckets of a part of a branch.
    fn insert_into_branch_suffix(
        condition: bool,
        src_data: &[u8; VALUE_SIZE],
        src_meta: &mut Meta,
        insert_after_index: usize,
        dest_data: &mut [[[u8; VALUE_SIZE]; Z]],
        dest_meta: &mut [[Meta; Z]],
    )
        requires
            VALUE_SIZE % 64 == 0,
            old(dest_data)@.len() == old(dest_meta)@.len(),
        ensures
            final(dest_data)@.len() == old(dest_data)@.len(),
            final(dest_meta)@.len() == old(dest_meta)@.len(),
            ({
                let b = model::buckets(old(dest_data)@, old(dest_meta)@);
                let item = model::slot(*src_data, *old(src_meta));
                let from = insert_after_index as int;
                let moved = condition && !item.vacant() && packing::first_open(
                    b,
                    from,
                    b.len() as int,
                ) < b.len();
                &&& model::buckets(final(dest_data)@, final(dest_meta)@) == (if moved {
                    packing::placed(b, item, from)
                } else {
                    b
                })
                &&& model::slot(*src_data, *final(src_meta)) == (if moved {
                    item.vacated()
                } else {
                    item
                })
            }),
    {
        let ghost b0 = model::buckets(dest_data@, dest_meta@);
        let ghost item = model::slot(*src_data, *src_meta);
        let ghost from = insert_after_index as int;
        let ghost at = packing::first_open(b0, from, b0.len() as int);
        proof {
            packing::lemma_first_open(b0, from, b0.len() as int);
        }
        let mut idx: usize = 0;
        while idx < dest_data.len()
            invariant
                VALUE_SIZE % 64 == 0,
                idx <= b0.len(),
                dest_data@.len() == b0.len(),
                dest_meta@.len() == b0.len(),
                from == insert_after_index,
                at <= b0.len(),
                at < b0.len() ==> from <= at && model::has_room(b0[at]),
                forall|m: int| from <= m < at ==> !model::has_room(#[trigger] b0[m]),
                forall|j: int|
                    0 <= j < b0.len() ==> model::slots(
                        (#[trigger] dest_data@[j])@,
                        dest_meta@[j]@,
                    ) == (if condition && !item.vacant() && j == at && at < idx {
                        model::inserted(b0[j], item)
                    } else {
                        b0[j]
                    }),
                model::slot(*src_data, *src_meta) == (if condition && !item.vacant() && at < idx {
                    item.vacated()
                } else {
                    item
                }),
            decreases b0.len() - idx,
        {
            assert(model::slots(dest_data@[idx as int]@, dest_meta@[idx as int]@)
                == b0[idx as int]);
            details::ct_insert(
                ct_and(condition, !ct_lt(idx as u64, insert_after_index as u64)),
                src_data,
                src_meta,
                &mut dest_data[idx],
                &mut dest_meta[idx],
            );
            idx = idx + 1;
        }
        proof {
            let moved = condition && !item.vacant() && at < b0.len();
            let after = if moved {
                packing::placed(b0, item, from)
            } else {
                b0
            };
            assert forall|j: int| 0 <= j < b0.len() implies #[trigger] model::buckets(
                dest_data@,
                dest_meta@,
            )[j] == after[j] by {
                assert(model::buckets(dest_data@, dest_meta@)[j] == model::slots(
                    dest_data@[j]@,
                    dest_meta@[j]@,
                ));
            }
            assert(model::buckets(dest_data@, dest_meta@) =~= after);
        }
    }
}

} // verus!
