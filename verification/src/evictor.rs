//! Strategies for moving blocks from the stash back into the tree.
use crate::branch::BranchCheckout;
use crate::circuit;
use crate::circuit::Source;
use crate::model;
use crate::model::Slot;
use crate::oblivious::{meta_is_vacant, Meta};
use crate::packing;
use crate::rng::{Draw, NodeRng};
use crate::tree;
use vstd::arithmetic::power2::*;
use vstd::prelude::*;

verus! {

/// A way of moving blocks from the stash into the tree.
pub trait Evictor<const VALUE_SIZE: usize, const Z: usize, const N: usize>: Sized {
    /// What an eviction makes of the stash and of the branch of `leaf`. It is
    /// left open where an implementation does not say.
    open spec fn evicted(&self, stash: Seq<Slot>, branch: Seq<Seq<Slot>>, leaf: u64) -> (
        Seq<Slot>,
        Seq<Seq<Slot>>,
    ) {
        arbitrary::<
            spec_fn(Self, Seq<Slot>, Seq<Seq<Slot>>, u64) -> (Seq<Slot>, Seq<Seq<Slot>>),
        >()(*self, stash, branch, leaf)
    }

    /// Whether branches can be chosen at access number `iteration`; by default
    /// they always can.
    open spec fn ready(&self, iteration: u64, tree_height: u32) -> bool {
        true
    }

    /// Whether one choice, at access number `iteration` to a tree of height
    /// `tree_height` for `tree_size` values, may turn the evictor into `after`
    /// and give `leaves`. It is left open where an implementation does not say.
    open spec fn chooses(
        &self,
        after: &Self,
        iteration: u64,
        tree_height: u32,
        tree_size: u64,
        leaves: Seq<u64>,
    ) -> bool {
        arbitrary::<spec_fn(Self, Self, u64, u32, u64, Seq<u64>) -> bool>()(
            *self,
            *after,
            iteration,
            tree_height,
            tree_size,
            leaves,
        )
    }

    /// Moves blocks from the stash into a branch that is checked out.
    ///
    /// No block is lost, and every block ends up where it may stand.
    fn evict_from_stash_to_branch(
        &self,
        stash_data: &mut [[u8; VALUE_SIZE]],
        stash_meta: &mut [Meta],
        branch: &mut BranchCheckout<VALUE_SIZE, Z>,
    )
        requires
            VALUE_SIZE % 64 == 0,
            old(stash_data)@.len() == old(stash_meta)@.len(),
            old(branch).wf(),
            old(branch).leaf() != 0,
        ensures
            final(stash_data)@.len() == old(stash_data)@.len(),
            final(stash_meta)@.len() == old(stash_meta)@.len(),
            final(branch).wf(),
            final(branch).leaf() == old(branch).leaf(),
            ({
                let stash = model::slots(old(stash_data)@, old(stash_meta)@);
                let new_stash = model::slots(final(stash_data)@, final(stash_meta)@);
                &&& (new_stash, final(branch).buckets()) == self.evicted(
                    stash,
                    old(branch).buckets(),
                    old(branch).leaf(),
                )
                &&& packing::same_shape(final(branch).buckets(), old(branch).buckets())
                &&& model::live(new_stash).add(model::live_in(final(branch).buckets()))
                    == model::live(stash).add(model::live_in(old(branch).buckets()))
                &&& packing::legal(old(branch).buckets(), old(branch).leaf()) ==> packing::legal(
                    final(branch).buckets(),
                    old(branch).leaf(),
                )
            }),
    ;

    /// Chooses the leaves of the branches to evict to, besides the one that is
    /// accessed.
    fn get_branches_to_evict(
        &mut self,
        iteration: u64,
        tree_height: u32,
        tree_size: u64,
    ) -> (leaves: [u64; N])
        requires
            tree_height < 64,
            old(self).ready(iteration, tree_height),
        ensures
            forall|i: int| 0 <= i < N ==> tree::is_leaf(#[trigger] leaves@[i], tree_height as nat),
            old(self).chooses(final(self), iteration, tree_height, tree_size, leaves@),
    ;
}

/// Draws of `leaves` below the root, one after the other.
pub open spec fn draws(leaves: Seq<u64>, tree_height: u32) -> Seq<Draw> {
    Seq::new(leaves.len(), |i: int| Draw { node: 1, tree_height, child: leaves[i] })
}

/// The eviction of Path ORAM: the branch is packed, and everything in the
/// stash that fits is moved to it. The branches are chosen at random.
pub struct PathOramEvict<R> {
    rng: R,
}

impl<R: NodeRng> PathOramEvict<R> {
    /// An evictor that chooses branches with `rng`.
    pub fn new(rng: R) -> (evictor: Self)
        ensures
            evictor.rng() == rng,
    {
        PathOramEvict { rng }
    }

    /// The generator that chooses the branches.
    pub closed spec fn rng(&self) -> R {
        self.rng
    }
}

impl<const VALUE_SIZE: usize, const Z: usize, const N: usize, R: NodeRng> Evictor<
    VALUE_SIZE,
    Z,
    N,
> for PathOramEvict<R> {
    open spec fn evicted(&self, stash: Seq<Slot>, branch: Seq<Seq<Slot>>, leaf: u64) -> (
        Seq<Slot>,
        Seq<Seq<Slot>>,
    ) {
        packing::unstashed(
            stash,
            packing::packed(branch, leaf, branch.len() as int),
            leaf,
            stash.len() as int,
        )
    }

    open spec fn ready(&self, iteration: u64, tree_height: u32) -> bool {
        true
    }

    /// The leaves are what the generator draws, one after the other.
    open spec fn chooses(
        &self,
        after: &Self,
        iteration: u64,
        tree_height: u32,
        tree_size: u64,
        leaves: Seq<u64>,
    ) -> bool {
        &&& leaves.len() == N
        &&& forall|i: int| 0 <= i < N ==> tree::is_leaf(#[trigger] leaves[i], tree_height as nat)
        &&& after.rng().drawn() == self.rng().drawn() + draws(leaves, tree_height)
    }

    fn evict_from_stash_to_branch(
        &self,
        stash_data: &mut [[u8; VALUE_SIZE]],
        stash_meta: &mut [Meta],
        branch: &mut BranchCheckout<VALUE_SIZE, Z>,
    ) {
        let ghost s0 = model::slots(stash_data@, stash_meta@);
        let ghost b0 = branch.buckets();
        let ghost leaf = branch.leaf();
        proof {
            branch.lemma_wf();
            packing::lemma_packed(b0, leaf, b0.len() as int);
        }
        branch.pack();
        let ghost b1 = branch.buckets();
        proof {
            packing::lemma_unstashed(s0, b1, leaf, s0.len() as int);
        }
        let mut idx: usize = 0;
        while idx < stash_data.len()
            invariant
                VALUE_SIZE % 64 == 0,
                idx <= s0.len(),
                stash_data@.len() == s0.len(),
                stash_meta@.len() == s0.len(),
                branch.wf(),
                branch.leaf() == leaf,
                leaf != 0,
                (model::slots(stash_data@, stash_meta@), branch.buckets()) == packing::unstashed(
                    s0,
                    b1,
                    leaf,
                    idx as int,
                ),
            decreases s0.len() - idx,
        {
            let ghost before = model::slots(stash_data@, stash_meta@);
            assert(before[idx as int] == model::slot(
                stash_data@[idx as int],
                stash_meta@[idx as int],
            ));
            let ghost c = branch.buckets();
            branch.ct_insert(true, &stash_data[idx], &mut stash_meta[idx]);
            assert(model::slots(stash_data@, stash_meta@) =~= packing::unstash_slot(
                before,
                c,
                leaf,
                idx as int,
            ).0);
            idx = idx + 1;
        }
    }

    fn get_branches_to_evict(
        &mut self,
        iteration: u64,
        tree_height: u32,
        tree_size: u64,
    ) -> (leaves: [u64; N]) {
        let mut leaf_array: [u64; N] = [0u64; N];
        let mut i: usize = 0;
        while i < N
            invariant
                i <= N,
                tree_height < 64,
                forall|j: int|
                    0 <= j < i ==> tree::is_leaf(#[trigger] leaf_array@[j], tree_height as nat),
                self.rng.drawn() == old(self).rng.drawn() + draws(
                    leaf_array@.take(i as int),
                    tree_height,
                ),
            decreases N - i,
        {
            let ghost before = leaf_array@;
            leaf_array[i] = self.rng.random_child_at_height(1, tree_height);
            assert(draws(leaf_array@.take(i + 1), tree_height) =~= draws(
                before.take(i as int),
                tree_height,
            ).push(Draw { node: 1, tree_height, child: leaf_array@[i as int] }));
            i = i + 1;
        }
        assert(leaf_array@.take(N as int) =~= leaf_array@);
        leaf_array
    }
}

/// Stands for no bucket: no branch has a bucket of this index.
const FLOOR_INDEX: usize = usize::MAX;

/// The block that may go deepest, of those that were looked at.
struct Deepest {
    /// The first bucket in which it may stand, or `FLOOR_INDEX` if there is no
    /// such block.
    target: usize,
    /// The bucket that it is in; the number of buckets, if it is in the stash.
    bucket: usize,
    /// The slot that it is in.
    chunk: usize,
}

impl Deepest {
    spec fn source(&self, len: int) -> Option<Source> {
        if self.target == FLOOR_INDEX {
            None
        } else if self.bucket == len {
            Some(Source::Stash(self.chunk as int))
        } else {
            Some(Source::Bucket(self.bucket as int, self.chunk as int))
        }
    }

    spec fn describes(&self, stash: Seq<Slot>, b: Seq<Seq<Slot>>, leaf: u64) -> bool {
        self.source(b.len() as int) matches Some(src) ==> self.target == circuit::depth(
            stash,
            b,
            leaf,
            src,
        )
    }
}

/// The eviction of Circuit ORAM, in a form that is not oblivious: it is meant
/// for demonstration and tests. The branches are chosen in a fixed order.
pub struct CircuitOramNonobliviousEvict {}

impl CircuitOramNonobliviousEvict {
    /// An evictor that chooses branches deterministically.
    pub fn new() -> (evictor: Self)
        ensures
            evictor == (CircuitOramNonobliviousEvict {  }),
    {
        CircuitOramNonobliviousEvict {  }
    }

    /// The first vacant slot of a bucket, or the number of its slots.
    fn first_vacant_chunk<const VALUE_SIZE: usize, const Z: usize>(
        bucket_data: &[[u8; VALUE_SIZE]; Z],
        bucket_meta: &[Meta; Z],
    ) -> (chunk: usize)
        ensures
            chunk == model::first_vacant(model::slots(bucket_data@, bucket_meta@), 0),
            chunk <= Z,
    {
        let ghost s = model::slots(bucket_data@, bucket_meta@);
        let mut idx: usize = 0;
        while idx < Z
            invariant
                idx <= Z,
                s == model::slots(bucket_data@, bucket_meta@),
                forall|i: int| 0 <= i < idx ==> !(#[trigger] s[i]).vacant(),
            decreases Z - idx,
        {
            assert(s[idx as int] == model::slot(
                bucket_data@[idx as int],
                bucket_meta@[idx as int],
            ));
            if meta_is_vacant(&bucket_meta[idx]) {
                proof {
                    model::lemma_first_vacant_is(s, 0, idx as int);
                }
                return idx;
            }
            idx = idx + 1;
        }
        proof {
            model::lemma_first_vacant_is(s, 0, idx as int);
        }
        Z
    }

    /// Looks at one slot: is its block to be preferred to `best`?
    fn look_at<const VALUE_SIZE: usize, const Z: usize>(
        meta: &Meta,
        branch: &BranchCheckout<VALUE_SIZE, Z>,
        bucket: usize,
        chunk: usize,
        best: Deepest,
    ) -> (better: Deepest)
        requires
            branch.wf(),
            branch.leaf() != 0,
        ensures
            ({
                let depth = packing::legal_index(
                    meta.leaf_num,
                    branch.leaf(),
                    branch.buckets().len(),
                );
                if meta.leaf_num != 0 && depth < best.target {
                    better == (Deepest { target: depth as usize, bucket, chunk }) && better.target
                        == depth && depth < branch.buckets().len()
                } else {
                    better == best
                }
            }),
    {
        proof {
            branch.lemma_wf();
            packing::lemma_legal_index(meta.leaf_num, branch.leaf(), branch.buckets().len());
        }
        let elem_destination: usize = branch.lowest_height_legal_index(meta.leaf_num);
        if !meta_is_vacant(meta) && elem_destination < best.target {
            Deepest { target: elem_destination, bucket, chunk }
        } else {
            best
        }
    }

    /// The block that may go deepest, of those above bucket `bucket_num` and in
    /// the stash.
    fn deepest_source<const VALUE_SIZE: usize, const Z: usize>(
        stash_data: &[[u8; VALUE_SIZE]],
        stash_meta: &[Meta],
        branch: &BranchCheckout<VALUE_SIZE, Z>,
        bucket_num: usize,
    ) -> (best: Deepest)
        requires
            branch.wf(),
            branch.leaf() != 0,
            stash_data@.len() == stash_meta@.len(),
            bucket_num < branch.buckets().len(),
        ensures
            ({
                let stash = model::slots(stash_data@, stash_meta@);
                let b = branch.buckets();
                &&& best.source(b.len() as int) == circuit::deepest(
                    stash,
                    b,
                    branch.leaf(),
                    bucket_num as int,
                )
                &&& best.describes(stash, b, branch.leaf())
            }),
    {
        let ghost stash = model::slots(stash_data@, stash_meta@);
        let ghost b = branch.buckets();
        let ghost leaf = branch.leaf();
        let ghost n = bucket_num as int;
        proof {
            branch.lemma_wf();
            branch.lemma_stored();
        }
        let data_len: usize = branch.data.len();
        let mut best: Deepest = Deepest { target: FLOOR_INDEX, bucket: FLOOR_INDEX, chunk: 0 };
        let mut search_bucketnum: usize = bucket_num + 1;
        while search_bucketnum < data_len
            invariant
                branch.wf(),
                branch.leaf() == leaf,
                leaf != 0,
                b == branch.buckets(),
                b.len() == data_len,
                branch.data@.len() == data_len,
                branch.meta@.len() == data_len,
                forall|j: int| 0 <= j < b.len() ==> (#[trigger] b[j]).len() == Z,
                n == bucket_num,
                n < search_bucketnum <= data_len,
                best.describes(stash, b, leaf),
                circuit::scanned(
                    stash,
                    b,
                    leaf,
                    n,
                    Source::Bucket(search_bucketnum as int, 0),
                    best.source(b.len() as int),
                ),
            decreases data_len - search_bucketnum,
        {
            let mut search_idx: usize = 0;
            while search_idx < Z
                invariant
                    branch.wf(),
                    branch.leaf() == leaf,
                    leaf != 0,
                    b == branch.buckets(),
                    b.len() == data_len,
                    branch.meta@.len() == data_len,
                    forall|j: int| 0 <= j < b.len() ==> (#[trigger] b[j]).len() == Z,
                    n < search_bucketnum < data_len,
                    search_idx <= Z,
                    best.describes(stash, b, leaf),
                    circuit::scanned(
                        stash,
                        b,
                        leaf,
                        n,
                        Source::Bucket(search_bucketnum as int, search_idx as int),
                        best.source(b.len() as int),
                    ),
                decreases Z - search_idx,
            {
                proof {
                    let at = Source::Bucket(search_bucketnum as int, search_idx as int);
                    branch.lemma_stored();
                    circuit::lemma_scan_slot(stash, b, leaf, n, at, best.source(b.len() as int));
                }
                best = Self::look_at(
                    &branch.meta[search_bucketnum][search_idx],
                    branch,
                    search_bucketnum,
                    search_idx,
                    best,
                );
                search_idx = search_idx + 1;
            }
            proof {
                circuit::lemma_scan_bucket(
                    stash,
                    b,
                    leaf,
                    n,
                    search_bucketnum as int,
                    best.source(b.len() as int),
                );
            }
            search_bucketnum = search_bucketnum + 1;
        }
        proof {
            circuit::lemma_scan_branch(stash, b, leaf, n, best.source(b.len() as int));
        }
        let mut search_idx: usize = 0;
        while search_idx < stash_meta.len()
            invariant
                branch.wf(),
                branch.leaf() == leaf,
                leaf != 0,
                b == branch.buckets(),
                b.len() == data_len,
                stash == model::slots(stash_data@, stash_meta@),
                stash_data@.len() == stash_meta@.len(),
                search_idx <= stash.len(),
                best.describes(stash, b, leaf),
                circuit::scanned(
                    stash,
                    b,
                    leaf,
                    n,
                    Source::Stash(search_idx as int),
                    best.source(b.len() as int),
                ),
            decreases stash.len() - search_idx,
        {
            proof {
                let at = Source::Stash(search_idx as int);
                assert(stash[search_idx as int] == model::slot(
                    stash_data@[search_idx as int],
                    stash_meta@[search_idx as int],
                ));
                circuit::lemma_scan_slot(stash, b, leaf, n, at, best.source(b.len() as int));
            }
            best = Self::look_at(
                &stash_meta[search_idx],
                branch,
                data_len,
                search_idx,
                best,
            );
            search_idx = search_idx + 1;
        }
        proof {
            circuit::lemma_scan_done(stash, b, leaf, n, best.source(b.len() as int));
        }
        best
    }
}

/// Leaf number `turn` in the order in which the branches are chosen, in a tree
/// of height `tree_height`: the leaves come by the reversed bits of the turn,
/// over and over.
pub open spec fn leaf_at_turn(turn: nat, tree_height: nat) -> nat {
    pow2(tree_height) + tree::reversed_bits(turn % pow2(tree_height), tree_height)
}

impl<const VALUE_SIZE: usize, const Z: usize, const N: usize> Evictor<
    VALUE_SIZE,
    Z,
    N,
> for CircuitOramNonobliviousEvict {
    open spec fn evicted(&self, stash: Seq<Slot>, branch: Seq<Seq<Slot>>, leaf: u64) -> (
        Seq<Slot>,
        Seq<Seq<Slot>>,
    ) {
        circuit::evicted(stash, branch, leaf, 0)
    }

    /// The turns of an access have to fit in 64 bits.
    open spec fn ready(&self, iteration: u64, tree_height: u32) -> bool {
        N * iteration + N <= u64::MAX + 1
    }

    /// The leaves are those of the next turns.
    open spec fn chooses(
        &self,
        after: &Self,
        iteration: u64,
        tree_height: u32,
        tree_size: u64,
        leaves: Seq<u64>,
    ) -> bool {
        leaves.len() == N && forall|i: int|
            0 <= i < N ==> (#[trigger] leaves[i]) == leaf_at_turn(
                (N * iteration + i) as nat,
                tree_height as nat,
            )
    }

    fn evict_from_stash_to_branch(
        &self,
        stash_data: &mut [[u8; VALUE_SIZE]],
        stash_meta: &mut [Meta],
        branch: &mut BranchCheckout<VALUE_SIZE, Z>,
    ) {
        let ghost s0 = model::slots(stash_data@, stash_meta@);
        let ghost b0 = branch.buckets();
        let ghost leaf = branch.leaf();
        proof {
            branch.lemma_wf();
            branch.lemma_stored();
            circuit::lemma_evicted(s0, b0, leaf, 0);
        }
        let data_len: usize = branch.meta.len();
        let mut bucket_num: usize = 0;
        while bucket_num < data_len
            invariant
                VALUE_SIZE % 64 == 0,
                branch.wf(),
                branch.leaf() == leaf,
                leaf != 0,
                branch.buckets().len() == data_len,
                stash_data@.len() == s0.len(),
                stash_meta@.len() == s0.len(),
                circuit::evicted(
                    model::slots(stash_data@, stash_meta@),
                    branch.buckets(),
                    leaf,
                    bucket_num as int,
                ) == circuit::evicted(s0, b0, leaf, 0),
            decreases
                    circuit::weight(model::slots(stash_data@, stash_meta@), branch.buckets()),
                    data_len - bucket_num,
        {
            let ghost stash = model::slots(stash_data@, stash_meta@);
            let ghost b = branch.buckets();
            let ghost n = bucket_num as int;
            proof {
                branch.lemma_wf();
                branch.lemma_stored();
                circuit::lemma_visit_weight(stash, b, leaf, n);
            }
            let vacant_chunk: usize = Self::first_vacant_chunk(
                &branch.data[bucket_num],
                &branch.meta[bucket_num],
            );
            assert(model::has_room(b[n]) == (vacant_chunk < Z)) by {
                assert(b[n] == model::slots(branch.data@[n]@, branch.meta@[n]@));
            }
            if vacant_chunk < Z {
                let best: Deepest = Self::deepest_source(
                    stash_data,
                    stash_meta,
                    branch,
                    bucket_num,
                );
                proof {
                    if best.target <= bucket_num {
                        let src = best.source(b.len() as int).unwrap();
                        assert(circuit::is_deepest(stash, b, leaf, n, src));
                        assert(circuit::candidate(stash, b, n, src));
                        assert(circuit::fills(stash, b, leaf, n));
                    } else {
                        assert(!circuit::fills(stash, b, leaf, n));
                    }
                }
                if best.target > bucket_num {
                    bucket_num = bucket_num + 1;
                } else if best.bucket < data_len {
                    branch.relocate(best.bucket, best.chunk, bucket_num, vacant_chunk);
                    bucket_num = best.bucket - bucket_num;
                } else {
                    branch.fill(
                        &stash_data[best.chunk],
                        &mut stash_meta[best.chunk],
                        bucket_num,
                        vacant_chunk,
                    );
                    assert(model::slots(stash_data@, stash_meta@) =~= circuit::stash_after(
                        stash,
                        b,
                        leaf,
                        n,
                    ));
                    bucket_num = data_len;
                }
            } else {
                bucket_num = bucket_num + 1;
            }
        }
    }

    fn get_branches_to_evict(
        &mut self,
        iteration: u64,
        tree_height: u32,
        tree_size: u64,
    ) -> (leaves: [u64; N]) {
        let mut leaf_array: [u64; N] = [0u64; N];
        let leaf_significant_index: u64 = tree::power_of_two(tree_height);
        let mut i: usize = 0;
        while i < N
            invariant
                i <= N,
                tree_height < 64,
                N * iteration + N <= u64::MAX + 1,
                leaf_significant_index == pow2(tree_height as nat),
                forall|j: int|
                    0 <= j < i ==> (#[trigger] leaf_array@[j]) == leaf_at_turn(
                        (N * iteration + j) as nat,
                        tree_height as nat,
                    ),
                forall|j: int|
                    0 <= j < i ==> tree::is_leaf(#[trigger] leaf_array@[j], tree_height as nat),
            decreases N - i,
        {
            let turn: u64 = N as u64 * iteration + i as u64;
            proof {
                lemma_leaf_at_turn(turn as nat, tree_height as nat);
                tree::lemma_pow2_fits(tree_height as nat);
            }
            let test_position: u64 = tree::bit_reverse(turn % leaf_significant_index, tree_height);
            leaf_array[i] = leaf_significant_index + test_position;
            i = i + 1;
        }
        leaf_array
    }
}

/// What is chosen at any turn is a leaf.
pub proof fn lemma_leaf_at_turn(turn: nat, tree_height: nat)
    ensures
        pow2(tree_height) <= leaf_at_turn(turn, tree_height) < pow2(tree_height + 1),
        tree::height(leaf_at_turn(turn, tree_height)) == tree_height,
{
    tree::lemma_reversed_bits_bound(turn % pow2(tree_height), tree_height);
    lemma_pow2_unfold(tree_height + 1);
    lemma_pow2_pos(tree_height);
    tree::lemma_height_from_bounds(leaf_at_turn(turn, tree_height), tree_height);
}

} // verus!
