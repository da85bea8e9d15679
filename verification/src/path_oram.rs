//! Path ORAM.
//!
//! The number of blocks that a bucket holds, `Z`, is usually 2 or 4. The tree
//! has as many leaves as there are values, divided by `Z`; one that has a
//! single node is enough for `Z` values or less.
use crate::branch::BranchCheckout;
use crate::contents;
use crate::details;
use crate::evictor::Evictor;
use crate::model;
use crate::model::Slot;
use crate::oblivious::{cmov_u64, ct_eq, meta_is_vacant, Meta};
use crate::packing;
use crate::position_map::{PositionMap, PositionWrite};
use crate::rng::{Draw, NodeRng};
use crate::storage;
use crate::storage::{ORAMStorage, StorageCall};
use crate::tree;
use vstd::arithmetic::power2::*;
use vstd::multiset::*;
use vstd::prelude::*;

verus! {

/// The base 2 logarithm, rounded up.
pub open spec fn log2_ceil(x: nat) -> nat
    decreases x,
{
    if x <= 1 {
        0
    } else {
        1 + log2_ceil((x + 1) / 2)
    }
}

/// `mc_oblivious_traits::log2_ceil`: the base 2 logarithm of `arg`, rounded up;
/// 0 if `arg` is 0.
pub assume_specification[ mc_oblivious_traits::log2_ceil ](arg: u64) -> (log: u32)
    ensures
        arg <= pow2(log as nat),
        log > 0 ==> pow2((log - 1) as nat) < arg,
;

/// Whether there can be an array of `size` values: the size has to be a power
/// of two.
pub fn valid_size(size: u64) -> (valid: bool)
    ensures
        valid == (size != 0 && exists|k: nat| size == #[trigger] pow2(k)),
{
    if size == 0 {
        return false;
    }
    proof {
        lemma_power_of_two(size);
    }
    size & (size - 1) == 0
}

/// The height of the tree for `size` values in buckets of `z` blocks.
pub open spec fn tree_height(size: nat, z: nat) -> nat {
    if log2_ceil(size) >= log2_ceil(z) {
        (log2_ceil(size) - log2_ceil(z)) as nat
    } else {
        0
    }
}

/// Whether block `key` can be put back into the stash once it is taken out of
/// it.
pub open spec fn has_room_for(stash: Seq<Slot>, key: u64) -> bool {
    model::has_room(model::removed(stash, key))
}

/// The stash and the nodes once an eviction to the branch of `leaf` is over.
pub open spec fn evict_branch<
    const VALUE_SIZE: usize,
    const Z: usize,
    const N: usize,
    E: Evictor<VALUE_SIZE, Z, N>,
>(evictor: E, stash: Seq<Slot>, nodes: Seq<Seq<Slot>>, leaf: u64) -> (Seq<Slot>, Seq<Seq<Slot>>) {
    let (s, b) = evictor.evicted(stash, storage::branch_of(nodes, leaf), leaf);
    (s, storage::with_branch(nodes, leaf, b))
}

/// The stash and the nodes once the evictions to the branches of the first `k`
/// of `leaves` are over.
pub open spec fn evict_branches<
    const VALUE_SIZE: usize,
    const Z: usize,
    const N: usize,
    E: Evictor<VALUE_SIZE, Z, N>,
>(evictor: E, stash: Seq<Slot>, nodes: Seq<Seq<Slot>>, leaves: Seq<u64>, k: int) -> (
    Seq<Slot>,
    Seq<Seq<Slot>>,
)
    decreases k,
{
    if k <= 0 {
        (stash, nodes)
    } else {
        let (s, t) = evict_branches::<VALUE_SIZE, Z, N, E>(evictor, stash, nodes, leaves, k - 1);
        evict_branch::<VALUE_SIZE, Z, N, E>(evictor, s, t, leaves[k - 1])
    }
}

/// The stash and the nodes once the block of `item`'s number, which is in the
/// stash or on the branch of `leaf`, is replaced by `item` and an eviction to
/// that branch is over.
pub open spec fn replace_block<
    const VALUE_SIZE: usize,
    const Z: usize,
    const N: usize,
    E: Evictor<VALUE_SIZE, Z, N>,
>(evictor: E, stash: Seq<Slot>, nodes: Seq<Seq<Slot>>, leaf: u64, item: Slot) -> (
    Seq<Slot>,
    Seq<Seq<Slot>>,
) {
    let (s, b) = evictor.evicted(
        model::inserted(model::removed(stash, item.block_num), item),
        packing::branch_removed(storage::branch_of(nodes, leaf), item.block_num),
        leaf,
    );
    (s, storage::with_branch(nodes, leaf, b))
}

/// The stash and the nodes once the block of `item`'s number, which is in the
/// stash or on the branch of `leaf`, is replaced by `item`, in the stash.
pub open spec fn stash_block(
    stash: Seq<Slot>,
    nodes: Seq<Seq<Slot>>,
    leaf: u64,
    item: Slot,
) -> (Seq<Slot>, Seq<Seq<Slot>>) {
    let b = packing::branch_removed(storage::branch_of(nodes, leaf), item.block_num);
    (
        model::inserted(model::removed(stash, item.block_num), item),
        storage::with_branch(nodes, leaf, b),
    )
}

/// An oblivious array of `VALUE_SIZE`-byte values in a tree of buckets of `Z`
/// blocks, with evictions to `N` more branches at every access.
pub struct PathORAM<const VALUE_SIZE: usize, const Z: usize, const N: usize, S, P, R, E> {
    /// The height of the tree.
    height: u32,
    /// The buckets of the tree.
    storage: S,
    /// The leaf of every block.
    pos: P,
    /// What draws the new leaf of a block.
    rng: R,
    /// The values of the stash.
    stash_data: Vec<[u8; VALUE_SIZE]>,
    /// The metadata of the stash.
    stash_meta: Vec<Meta>,
    /// The branch that is checked out, if any.
    branch: BranchCheckout<VALUE_SIZE, Z>,
    /// What moves blocks from the stash into the tree.
    evictor: E,
    /// The number of accesses so far.
    iteration: u64,
}

impl<
    const VALUE_SIZE: usize,
    const Z: usize,
    const N: usize,
    S: ORAMStorage<VALUE_SIZE, Z>,
    P: PositionMap,
    R: NodeRng,
    E: Evictor<VALUE_SIZE, Z, N>,
> View for PathORAM<VALUE_SIZE, Z, N, S, P, R, E> {
    type V = Seq<Seq<u8>>;

    /// The values of the array.
    open spec fn view(&self) -> Seq<Seq<u8>> {
        Seq::new(
            self.size(),
            |key: int| contents::content(self.blocks(), key as u64, VALUE_SIZE as nat),
        )
    }
}

impl<
    const VALUE_SIZE: usize,
    const Z: usize,
    const N: usize,
    S: ORAMStorage<VALUE_SIZE, Z>,
    P: PositionMap,
    R: NodeRng,
    E: Evictor<VALUE_SIZE, Z, N>,
> PathORAM<VALUE_SIZE, Z, N, S, P, R, E> {
    /// The number of values.
    pub closed spec fn size(&self) -> nat {
        self.pos.size()
    }

    /// The height of the tree.
    pub closed spec fn height(&self) -> nat {
        self.height as nat
    }

    /// The slots of the stash.
    pub closed spec fn stash(&self) -> Seq<Slot> {
        model::slots(self.stash_data@, self.stash_meta@)
    }

    /// The buckets of the tree.
    pub closed spec fn nodes(&self) -> Seq<Seq<Slot>> {
        self.storage.nodes()
    }

    /// The leaf of every block that was accessed.
    pub closed spec fn positions(&self) -> Map<u64, u64> {
        self.pos.positions()
    }

    /// What moves blocks from the stash into the tree.
    pub closed spec fn evictor(&self) -> E {
        self.evictor
    }

    /// What draws the new leaf of a block.
    pub closed spec fn rng(&self) -> R {
        self.rng
    }

    /// What was asked of the storage so far, in order.
    pub closed spec fn calls(&self) -> Seq<StorageCall> {
        self.storage.calls()
    }

    /// What was written to the position map so far, in order.
    pub closed spec fn writes(&self) -> Seq<PositionWrite> {
        self.pos.writes()
    }

    /// The leaf of the branch that is checked out, 0 if there is none.
    pub closed spec fn checked_out(&self) -> u64 {
        self.branch.leaf()
    }

    /// The number of accesses so far.
    pub closed spec fn iteration(&self) -> u64 {
        self.iteration
    }

    /// The blocks in the stash and in the tree.
    pub open spec fn blocks(&self) -> Multiset<Slot> {
        model::live(self.stash()).add(model::live_in(self.nodes()))
    }

    /// What holds between accesses: no branch is checked out, every block of
    /// the tree stands above the leaf that it travels to, and every block
    /// occurs once and travels to the leaf that the position map has for it.
    pub closed spec fn wf(&self) -> bool {
        &&& self.parts_wf()
        &&& contents::on_the_way(self.nodes())
        &&& contents::consistent(self.blocks(), self.positions())
    }

    /// The blocks between accesses: no two have the same number, each travels
    /// to the leaf that the position map has for it, and in the tree each
    /// stands above that leaf. No branch is checked out.
    pub proof fn law_blocks(&self)
        requires
            self.wf(),
        ensures
            contents::consistent(self.blocks(), self.positions()),
            contents::on_the_way(self.nodes()),
            self.checked_out() == 0,
    {
    }

    /// How many buckets the tree has.
    pub proof fn lemma_nodes(&self)
        requires
            self.wf(),
        ensures
            self.nodes().len() == pow2(self.height() + 1),
    {
    }

    spec fn parts_wf(&self) -> bool {
        &&& VALUE_SIZE % 64 == 0
        &&& self.height < 63
        &&& self.storage.wf()
        &&& self.storage.checked_out() is None
        &&& self.storage.nodes().len() == pow2(self.height as nat + 1)
        &&& self.pos.wf()
        &&& self.pos.height() == self.height
        &&& self.stash_data@.len() == self.stash_meta@.len()
        &&& self.branch.wf()
        &&& self.branch.leaf() == 0
    }

    /// The height of the tree for `size` values.
    pub fn tree_height(size: u64) -> (h: u32)
        ensures
            h == tree_height(size as nat, Z as nat),
    {
        let log_size: u32 = mc_oblivious_traits::log2_ceil(size);
        let log_z: u32 = mc_oblivious_traits::log2_ceil(Z as u64);
        proof {
            lemma_log2_ceil(size as nat, log_size as nat);
            lemma_log2_ceil(Z as nat, log_z as nat);
        }
        log_size.saturating_sub(log_z)
    }

    /// An array of `size` zero values, with room for `stash_size` blocks in the
    /// stash.
    ///
    /// The storage has to have two buckets for every leaf of the tree, all of
    /// them vacant, and the position map has to be made for `size` keys and the
    /// height of the tree.
    pub fn new(
        size: u64,
        stash_size: usize,
        storage: S,
        pos: P,
        rng: R,
        evictor: E,
    ) -> (oram: Self)
        requires
            VALUE_SIZE % 64 == 0,
            size != 0,
            exists|k: nat| size == #[trigger] pow2(k),
            tree_height(size as nat, Z as nat) < 63,
            storage.wf(),
            storage.checked_out() is None,
            storage.nodes().len() == pow2(tree_height(size as nat, Z as nat) + 1),
            forall|t: int, i: int|
                0 <= t < storage.nodes().len() && 0 <= i < storage.nodes()[t].len() ==> (
                #[trigger] storage.nodes()[t][i]).vacant(),
            pos.wf(),
            pos.size() == size,
            pos.height() == tree_height(size as nat, Z as nat),
        ensures
            oram.wf(),
            oram.size() == size,
            oram.height() == tree_height(size as nat, Z as nat),
            oram.stash() == Seq::new(stash_size as nat, |i: int| Slot::zero(VALUE_SIZE as nat)),
            oram.nodes() == storage.nodes(),
            oram.positions() == pos.positions(),
            oram.evictor() == evictor,
            oram.rng() == rng,
            oram.calls() == storage.calls(),
            oram.writes() == pos.writes(),
            oram.iteration() == 0,
            oram@ == Seq::new(size as nat, |key: int| model::zeros(VALUE_SIZE as nat)),
    {
        let height: u32 = Self::tree_height(size);
        let mut stash_data: Vec<[u8; VALUE_SIZE]> = Vec::new();
        let mut stash_meta: Vec<Meta> = Vec::new();
        let ghost zero = Slot::zero(VALUE_SIZE as nat);
        while stash_data.len() < stash_size
            invariant
                stash_data@.len() == stash_meta@.len(),
                stash_data@.len() <= stash_size,
                zero == Slot::zero(VALUE_SIZE as nat),
                forall|i: int|
                    0 <= i < stash_data@.len() ==> model::slot(
                        #[trigger] stash_data@[i],
                        stash_meta@[i],
                    ) == zero,
            decreases stash_size - stash_data@.len(),
        {
            let value: [u8; VALUE_SIZE] = [0u8; VALUE_SIZE];
            assert(value@ =~= model::zeros(VALUE_SIZE as nat));
            stash_data.push(value);
            stash_meta.push(Meta { leaf_num: 0, block_num: 0 });
        }
        let oram = PathORAM {
            height,
            storage,
            pos,
            rng,
            stash_data,
            stash_meta,
            branch: BranchCheckout::default(),
            evictor,
            iteration: 0,
        };
        proof {
            assert(oram.stash() =~= Seq::new(stash_size as nat, |i: int| zero));
            contents::lemma_vacant(oram.stash());
            assert forall|t: int| 0 <= t < oram.nodes().len() implies model::live(
                #[trigger] oram.nodes()[t],
            ) == Multiset::<Slot>::empty() by {
                contents::lemma_vacant(oram.nodes()[t]);
            }
            contents::lemma_no_blocks(oram.nodes());
            assert(oram.blocks() =~= Multiset::<Slot>::empty());
            assert(oram@ =~= Seq::new(size as nat, |key: int| model::zeros(VALUE_SIZE as nat)));
        }
        oram
    }

    /// The number of values.
    pub fn len(&self) -> (len: u64)
        requires
            self.wf(),
        ensures
            len == self.size(),
            len == self@.len(),
    {
        self.pos.len()
    }

    /// The number of blocks in the stash. It is a secret.
    pub fn stash_size(&self) -> (count: usize)
        requires
            self.wf(),
        ensures
            count == model::live(self.stash()).len(),
    {
        let ghost stash = self.stash();
        let mut stash_count: u64 = 0;
        let mut idx: usize = 0;
        while idx < self.stash_data.len()
            invariant
                stash == self.stash(),
                self.stash_data@.len() == self.stash_meta@.len(),
                idx <= stash.len(),
                stash_count <= idx,
                stash_count == model::live(stash.take(idx as int)).len(),
            decreases stash.len() - idx,
        {
            let stash_count_incremented: u64 = stash_count + 1;
            cmov_u64(
                !meta_is_vacant(&self.stash_meta[idx]),
                &stash_count_incremented,
                &mut stash_count,
            );
            proof {
                let part = stash.take(idx as int + 1);
                assert(part.drop_last() =~= stash.take(idx as int));
                assert(part.last() == stash[idx as int]);
            }
            idx = idx + 1;
        }
        assert(stash.take(idx as int) =~= stash);
        stash_count as usize
    }

    /// Whether block `key` can be accessed: whether the stash has room for it.
    pub fn stash_has_room(&self, key: u64) -> (room: bool)
        requires
            self.wf(),
        ensures
            room == has_room_for(self.stash(), key),
    {
        let ghost stash = self.stash();
        let mut room: u64 = 0;
        let mut idx: usize = 0;
        while idx < self.stash_data.len()
            invariant
                stash == self.stash(),
                self.stash_data@.len() == self.stash_meta@.len(),
                idx <= stash.len(),
                room == 0 || room == 1,
                room == 1 <==> exists|i: int|
                    0 <= i < idx && ((#[trigger] stash[i]).vacant() || stash[i].block_num == key),
            decreases stash.len() - idx,
        {
            assert(stash[idx as int] == model::slot(
                self.stash_data@[idx as int],
                self.stash_meta@[idx as int],
            ));
            cmov_u64(meta_is_vacant(&self.stash_meta[idx]), &1, &mut room);
            cmov_u64(ct_eq(self.stash_meta[idx].block_num, key), &1, &mut room);
            idx = idx + 1;
        }
        proof {
            contents::lemma_has_room_for(stash, key);
        }
        ct_eq(room, 1)
    }

    /// What an access does to the array: it replaces the value of `key`.
    pub open spec fn stores(&self, before: &Self, key: u64) -> bool {
        &&& key < before@.len()
        &&& self@ == before@.update(key as int, self@[key as int])
    }

    /// Whether this is what an access to block `key` makes of `before`, if the
    /// position map has it on the branch of `old_pos`, its new leaf is
    /// `new_pos`, and the evictor chooses `leaves`.
    pub open spec fn accessed_from(
        &self,
        before: &Self,
        key: u64,
        old_pos: u64,
        new_pos: u64,
        leaves: Seq<u64>,
    ) -> bool {
        &&& tree::is_leaf(old_pos, before.height())
        &&& before.positions().contains_key(key) ==> old_pos == before.positions()[key]
        &&& leaves.len() == N
        &&& forall|i: int| 0 <= i < N ==> tree::is_leaf(#[trigger] leaves[i], before.height())
        &&& before.evictor().chooses(
            &self.evictor(),
            before.iteration(),
            before.height() as u32,
            before.size() as u64,
            leaves,
        )
        &&& self.writes() == before.writes().push(
            PositionWrite { key, new_val: new_pos, old_val: old_pos },
        )
        &&& self.calls() == before.calls() + storage::visits(seq![old_pos] + leaves)
        &&& ({
            let item = Slot { leaf_num: new_pos, block_num: key, data: self@[key as int] };
            let (s, t) = replace_block::<VALUE_SIZE, Z, N, E>(
                self.evictor(),
                before.stash(),
                before.nodes(),
                old_pos,
                item,
            );
            (self.stash(), self.nodes()) == evict_branches::<VALUE_SIZE, Z, N, E>(
                self.evictor(),
                s,
                t,
                leaves,
                N as int,
            )
        })
    }

    /// Moves blocks from the stash to the branch of `leaf`.
    fn evict_to_branch(&mut self, leaf: u64)
        requires
            old(self).parts_wf(),
            contents::on_the_way(old(self).nodes()),
            tree::is_leaf(leaf, old(self).height()),
        ensures
            final(self).parts_wf(),
            contents::on_the_way(final(self).nodes()),
            (final(self).stash(), final(self).nodes()) == evict_branch::<VALUE_SIZE, Z, N, E>(
                old(self).evictor(),
                old(self).stash(),
                old(self).nodes(),
                leaf,
            ),
            final(self).blocks() == old(self).blocks(),
            final(self).stash().len() == old(self).stash().len(),
            final(self).height == old(self).height,
            final(self).pos == old(self).pos,
            final(self).rng == old(self).rng,
            final(self).calls() == old(self).calls() + storage::visits(seq![leaf]),
            final(self).evictor == old(self).evictor,
            final(self).iteration == old(self).iteration,
    {
        proof {
            tree::lemma_height_bounds(leaf as nat);
        }
        self.branch.checkout(&mut self.storage, leaf);
        self.evictor.evict_from_stash_to_branch(
            self.stash_data.as_mut_slice(),
            self.stash_meta.as_mut_slice(),
            &mut self.branch,
        );
        let ghost new_branch = self.branch.buckets();
        proof {
            self.branch.lemma_wf();
            contents::lemma_evict(
                old(self).stash(),
                old(self).nodes(),
                leaf,
                self.stash(),
                new_branch,
            );
        }
        self.branch.checkin(&mut self.storage);
        assert(self.calls() =~= old(self).calls() + storage::visits(seq![leaf]));
    }

    /// Accesses value `key` with `new_pos` as the next leaf of its block: calls
    /// `f` on the value, keeps what `f` makes of it, and returns what `f`
    /// returns.
    pub fn access_at<T, F: FnOnce(&mut [u8; VALUE_SIZE]) -> T>(
        &mut self,
        key: u64,
        new_pos: u64,
        f: F,
    ) -> (result: T)
        requires
            old(self).wf(),
            key < old(self).size(),
            tree::is_leaf(new_pos, old(self).height()),
            has_room_for(old(self).stash(), key),
            old(self).iteration() < u64::MAX,
            old(self).evictor().ready(old(self).iteration(), old(self).height() as u32),
            forall|v: &mut [u8; VALUE_SIZE]|
                v@ == old(self)@[key as int] ==> #[trigger] call_requires(f, (v,)),
        ensures
            final(self).wf(),
            final(self).size() == old(self).size(),
            final(self).height() == old(self).height(),
            final(self).stash().len() == old(self).stash().len(),
            final(self).iteration() == old(self).iteration() + 1,
            final(self).rng() == old(self).rng(),
            final(self).positions() == old(self).positions().insert(key, new_pos),
            exists|v: &mut [u8; VALUE_SIZE]| #[trigger]
                call_ensures(f, (v,), result) && v@ == old(self)@[key as int]
                    && final(v)@ == final(self)@[key as int],
            final(self).stores(old(self), key),
            final(self).blocks() == contents::without(old(self).blocks(), key).insert(
                (Slot { leaf_num: new_pos, block_num: key, data: final(self)@[key as int] }),
            ),
            exists|old_pos: u64, leaves: Seq<u64>| #[trigger]
                final(self).accessed_from(old(self), key, old_pos, new_pos, leaves),
    {
        let ghost s0 = self.stash();
        let ghost n0 = self.nodes();
        let ghost p0 = self.positions();
        let current_pos: u64 = self.pos.write(&key, &new_pos);
        proof {
            tree::lemma_height_bounds(current_pos as nat);
        }
        self.branch.checkout(&mut self.storage, current_pos);
        let mut meta: Meta = Meta { leaf_num: 0, block_num: 0 };
        let mut data: [u8; VALUE_SIZE] = [0u8; VALUE_SIZE];
        proof {
            assert(data@ =~= model::zeros(VALUE_SIZE as nat));
            assert(model::slot(data, meta) == Slot::zero(VALUE_SIZE as nat));
            contents::lemma_find(s0, n0, p0, key, current_pos, VALUE_SIZE as nat);
        }
        self.branch.ct_find_and_remove(true, &key, &mut data, &mut meta);
        details::ct_find_and_remove(
            true,
            &key,
            &mut data,
            &mut meta,
            self.stash_data.as_mut_slice(),
            self.stash_meta.as_mut_slice(),
        );
        assert(data@ == old(self)@[key as int]);
        let result: T = f(&mut data);
        meta.block_num = key;
        meta.leaf_num = new_pos;
        let ghost item = model::slot(data, meta);
        details::ct_insert(
            true,
            &data,
            &mut meta,
            self.stash_data.as_mut_slice(),
            self.stash_meta.as_mut_slice(),
        );
        let size: u64 = self.pos.len();
        let leaves: [u64; N] = self.evictor.get_branches_to_evict(
            self.iteration,
            self.height,
            size,
        );
        self.evictor.evict_from_stash_to_branch(
            self.stash_data.as_mut_slice(),
            self.stash_meta.as_mut_slice(),
            &mut self.branch,
        );
        let ghost new_branch = self.branch.buckets();
        let ghost m0 = old(self).blocks();
        let ghost m1 = contents::without(m0, key).insert(item);
        proof {
            self.branch.lemma_wf();
            contents::lemma_replace(s0, n0, p0, current_pos, item, self.stash(), new_branch);
            contents::lemma_exchange(m0, p0, item, VALUE_SIZE as nat);
        }
        self.branch.checkin(&mut self.storage);
        let ghost s1 = self.stash();
        let ghost n1 = self.nodes();
        let ghost e1 = self.evictor;
        assert(self.calls() =~= old(self).calls() + storage::visits(
            seq![current_pos] + leaves@.take(0),
        ));
        assert((s1, n1) == replace_block::<VALUE_SIZE, Z, N, E>(e1, s0, n0, current_pos, item));
        let mut i: usize = 0;
        while i < N
            invariant
                i <= N,
                self.parts_wf(),
                contents::on_the_way(self.nodes()),
                self.blocks() == m1,
                self.height == old(self).height,
                self.pos.size() == old(self).pos.size(),
                self.positions() == p0.insert(key, new_pos),
                self.writes() == old(self).writes().push(
                    PositionWrite { key, new_val: new_pos, old_val: current_pos },
                ),
                self.stash().len() == old(self).stash().len(),
                self.iteration == old(self).iteration,
                self.evictor == e1,
                self.rng == old(self).rng,
                self.calls() == old(self).calls() + storage::visits(
                    seq![current_pos] + leaves@.take(i as int),
                ),
                forall|j: int|
                    0 <= j < N ==> tree::is_leaf(#[trigger] leaves@[j], self.height as nat),
                (self.stash(), self.nodes()) == evict_branches::<VALUE_SIZE, Z, N, E>(
                    e1,
                    s1,
                    n1,
                    leaves@,
                    i as int,
                ),
            decreases N - i,
        {
            let ghost visited = seq![current_pos] + leaves@.take(i as int);
            self.evict_to_branch(leaves[i]);
            assert(storage::visits(visited) + storage::visits(seq![leaves@[i as int]])
                =~= storage::visits(seq![current_pos] + leaves@.take(i + 1)));
            assert(self.calls() =~= old(self).calls() + storage::visits(
                seq![current_pos] + leaves@.take(i + 1),
            ));
            i = i + 1;
        }
        self.iteration = self.iteration + 1;
        proof {
            assert(leaves@.take(N as int) =~= leaves@);
            assert(self@[key as int] == item.data);
            assert(self@ =~= old(self)@.update(key as int, item.data));
            assert(self.accessed_from(old(self), key, current_pos, new_pos, leaves@));
        }
        result
    }

    /// Accesses value `key`: calls `f` on the value, keeps what `f` makes of
    /// it, and returns what `f` returns.
    ///
    /// The block gets a new random leaf.
    pub fn access<T, F: FnOnce(&mut [u8; VALUE_SIZE]) -> T>(&mut self, key: u64, f: F) -> (result:
        T)
        requires
            old(self).wf(),
            key < old(self).size(),
            has_room_for(old(self).stash(), key),
            old(self).iteration() < u64::MAX,
            old(self).evictor().ready(old(self).iteration(), old(self).height() as u32),
            forall|v: &mut [u8; VALUE_SIZE]|
                v@ == old(self)@[key as int] ==> #[trigger] call_requires(f, (v,)),
        ensures
            final(self).wf(),
            final(self).size() == old(self).size(),
            final(self).height() == old(self).height(),
            final(self).stash().len() == old(self).stash().len(),
            final(self).iteration() == old(self).iteration() + 1,
            exists|v: &mut [u8; VALUE_SIZE]| #[trigger]
                call_ensures(f, (v,), result) && v@ == old(self)@[key as int]
                    && final(v)@ == final(self)@[key as int],
            final(self).stores(old(self), key),
            exists|old_pos: u64, new_pos: u64, leaves: Seq<u64>| #[trigger]
                final(self).accessed_from(old(self), key, old_pos, new_pos, leaves)
                    && tree::is_leaf(new_pos, old(self).height())
                    && final(self).positions() == old(self).positions().insert(key, new_pos)
                    && final(self).rng().drawn() == old(self).rng().drawn().push(
                    (Draw { node: 1, tree_height: old(self).height() as u32, child: new_pos }),
                ) && final(self).blocks() == contents::without(old(self).blocks(), key).insert(
                    (Slot { leaf_num: new_pos, block_num: key, data: final(self)@[key as int] }),
                ),
    {
        let new_pos: u64 = self.rng.random_child_at_height(1, self.height);
        let ghost drawn = *self;
        let result: T = self.access_at(key, new_pos, f);
        proof {
            let (old_pos, leaves) = choose|old_pos: u64, leaves: Seq<u64>|
                self.accessed_from(&drawn, key, old_pos, new_pos, leaves);
            assert(self.accessed_from(old(self), key, old_pos, new_pos, leaves));
        }
        result
    }
}

/// The powers of two are the numbers that have no bit in common with the number
/// before them.
proof fn lemma_power_of_two(x: u64)
    requires
        x != 0,
    ensures
        x & (x - 1) as u64 == 0 <==> exists|k: nat| x == #[trigger] pow2(k),
    decreases x,
{
    lemma2_to64();
    if x % 2 == 1 {
        assert(x % 2 == 1 ==> x & (x - 1) as u64 == (x - 1) as u64) by (bit_vector);
        if x == 1 {
            assert(x == pow2(0));
        } else {
            assert forall|k: nat| x != #[trigger] pow2(k) by {
                if k > 0 {
                    lemma_pow2_unfold(k);
                }
            }
        }
    } else {
        let y = x / 2;
        assert(x != 0 && x % 2 == 0 && y == x / 2 ==> (x & (x - 1) as u64 == 0 <==> y & (y
            - 1) as u64 == 0)) by (bit_vector);
        lemma_power_of_two(y);
        if exists|k: nat| y == #[trigger] pow2(k) {
            let k = choose|k: nat| y == #[trigger] pow2(k);
            lemma_pow2_unfold(k + 1);
            assert(x == pow2(k + 1));
        }
        if exists|k: nat| x == #[trigger] pow2(k) {
            let k = choose|k: nat| x == #[trigger] pow2(k);
            assert(k > 0);
            lemma_pow2_unfold(k);
            assert(y == pow2((k - 1) as nat));
        }
    }
}

pub proof fn lemma_log2_ceil(x: nat, log: nat)
    requires
        x <= pow2(log),
        log > 0 ==> pow2((log - 1) as nat) < x,
    ensures
        log2_ceil(x) == log,
    decreases x,
{
    lemma2_to64();
    if x <= 1 {
        if log > 0 {
            lemma_pow2_pos((log - 1) as nat);
        }
    } else {
        lemma_pow2_unfold(log);
        if log > 1 {
            lemma_pow2_unfold((log - 1) as nat);
        }
        lemma_log2_ceil((x + 1) / 2, (log - 1) as nat);
    }
}

pub proof fn lemma_log2_ceil_pow2(e: nat)
    ensures
        log2_ceil(pow2(e)) == e,
{
    if e > 0 {
        lemma_pow2_strictly_increases((e - 1) as nat, e);
    }
    lemma_log2_ceil(pow2(e), e);
}

} // verus!
