//! Block storage: one bucket for every node of a binary tree, checked out and
//! checked in a branch at a time.
use crate::model;
use crate::model::Slot;
use crate::oblivious::Meta;
use crate::tree;
use vstd::prelude::*;

verus! {

/// The buckets from node `leaf` up to the root.
pub open spec fn branch_of(nodes: Seq<Seq<Slot>>, leaf: u64) -> Seq<Seq<Slot>> {
    Seq::new(
        tree::height(leaf as nat) + 1,
        |i: int| nodes[tree::ancestor(leaf as nat, i as nat) as int],
    )
}

/// The buckets of the tree once those from node `leaf` up to the root are
/// replaced by `branch`.
pub open spec fn with_branch(
    nodes: Seq<Seq<Slot>>,
    leaf: u64,
    branch: Seq<Seq<Slot>>,
) -> Seq<Seq<Slot>> {
    Seq::new(
        nodes.len(),
        |node: int|
            if tree::is_ancestor(node as nat, leaf as nat) {
                branch[tree::height(leaf as nat) - tree::height(node as nat)]
            } else {
                nodes[node]
            },
    )
}

/// What is asked of storage: to check the branch of a node out, or in. Either
/// way the buffers have one bucket for the node and one for every node above
/// it.
pub enum StorageCall {
    Checkout(u64),
    Checkin(u64),
}

/// What is asked of storage when the branches of `leaves` are checked out and
/// in, one after the other.
pub open spec fn visits(leaves: Seq<u64>) -> Seq<StorageCall> {
    Seq::new(
        2 * leaves.len(),
        |i: int|
            if i % 2 == 0 {
                StorageCall::Checkout(leaves[i / 2])
            } else {
                StorageCall::Checkin(leaves[i / 2])
            },
    )
}

/// Storage for the buckets of a tree.
///
/// An implementation may keep the buckets elsewhere, encrypted and
/// authenticated. It need not hide which branch is asked for. What an
/// implementation holds is left open where it does not say.
pub trait ORAMStorage<const VALUE_SIZE: usize, const Z: usize>: Sized {
    /// The bucket of every node; bucket 0 is not used.
    open spec fn nodes(&self) -> Seq<Seq<Slot>> {
        arbitrary::<spec_fn(Self) -> Seq<Seq<Slot>>>()(*self)
    }

    /// The leaf of the branch that is checked out, if any.
    open spec fn checked_out(&self) -> Option<u64> {
        arbitrary::<spec_fn(Self) -> Option<u64>>()(*self)
    }

    /// What was asked of the storage so far, in order.
    open spec fn calls(&self) -> Seq<StorageCall> {
        arbitrary::<spec_fn(Self) -> Seq<StorageCall>>()(*self)
    }

    /// What the implementation relies on; by default nothing.
    open spec fn wf(&self) -> bool {
        true
    }

    /// The number of buckets, also the bound of the node indices.
    fn len(&self) -> (len: u64)
        requires
            self.wf(),
        ensures
            len == self.nodes().len(),
    ;

    /// Copies the buckets from node `index` up to the root into the buffers.
    fn checkout(
        &mut self,
        index: u64,
        dest: &mut [[[u8; VALUE_SIZE]; Z]],
        dest_meta: &mut [[Meta; Z]],
    )
        requires
            old(self).wf(),
            old(self).checked_out() is None,
            0 < index < old(self).nodes().len(),
            old(dest)@.len() == tree::height(index as nat) + 1,
            old(dest_meta)@.len() == tree::height(index as nat) + 1,
        ensures
            final(self).wf(),
            final(self).nodes() == old(self).nodes(),
            final(self).checked_out() == Some(index),
            final(self).calls() == old(self).calls().push(StorageCall::Checkout(index)),
            final(dest)@.len() == old(dest)@.len(),
            final(dest_meta)@.len() == old(dest_meta)@.len(),
            model::buckets(final(dest)@, final(dest_meta)@) == branch_of(old(self).nodes(), index),
    ;

    /// Copies the buffers back into the buckets from node `index` up to the
    /// root, which have to be the ones that are checked out. What the buffers
    /// hold afterwards is not specified.
    fn checkin(
        &mut self,
        index: u64,
        src: &mut [[[u8; VALUE_SIZE]; Z]],
        src_meta: &mut [[Meta; Z]],
    )
        requires
            old(self).wf(),
            index != 0,
            old(self).checked_out() == Some(index),
            old(src)@.len() == tree::height(index as nat) + 1,
            old(src_meta)@.len() == tree::height(index as nat) + 1,
        ensures
            final(self).wf(),
            final(self).checked_out() is None,
            final(self).calls() == old(self).calls().push(StorageCall::Checkin(index)),
            final(self).nodes() == with_branch(
                old(self).nodes(),
                index,
                model::buckets(old(src)@, old(src_meta)@),
            ),
            final(src)@.len() == old(src)@.len(),
            final(src_meta)@.len() == old(src_meta)@.len(),
    ;
}

/// Storage in two vectors.
pub struct HeapStorage<const VALUE_SIZE: usize, const Z: usize> {
    data: Vec<[[u8; VALUE_SIZE]; Z]>,
    meta: Vec<[Meta; Z]>,
    checkout_index: Option<u64>,
    /// What was asked so far.
    calls: Ghost<Seq<StorageCall>>,
}

impl<const VALUE_SIZE: usize, const Z: usize> HeapStorage<VALUE_SIZE, Z> {
    /// Storage for `size` buckets, all of them vacant.
    pub fn new(size: u64) -> (storage: Self)
        requires
            size <= usize::MAX,
        ensures
            storage.wf(),
            storage.checked_out() is None,
            storage.calls() == Seq::<StorageCall>::empty(),
            storage.nodes() == Seq::new(
                size as nat,
                |i: int| Seq::new(Z as nat, |j: int| Slot::zero(VALUE_SIZE as nat)),
            ),
    {
        let mut data: Vec<[[u8; VALUE_SIZE]; Z]> = Vec::new();
        let mut meta: Vec<[Meta; Z]> = Vec::new();
        let ghost empty = Seq::new(Z as nat, |j: int| Slot::zero(VALUE_SIZE as nat));
        let mut i: u64 = 0;
        while i < size
            invariant
                i <= size,
                data@.len() == i,
                meta@.len() == i,
                empty == Seq::new(Z as nat, |j: int| Slot::zero(VALUE_SIZE as nat)),
                forall|k: int|
                    0 <= k < i ==> model::slots((#[trigger] data@[k])@, meta@[k]@) == empty,
            decreases size - i,
        {
            let d: [[u8; VALUE_SIZE]; Z] = [[0u8; VALUE_SIZE]; Z];
            let m: [Meta; Z] = [Meta { leaf_num: 0, block_num: 0 }; Z];
            proof {
                assert forall|j: int| 0 <= j < Z implies #[trigger] model::slots(d@, m@)[j]
                    == empty[j] by {
                    assert(d@[j]@ =~= model::zeros(VALUE_SIZE as nat));
                }
                assert(model::slots(d@, m@) =~= empty);
            }
            data.push(d);
            meta.push(m);
            i = i + 1;
        }
        let storage = HeapStorage { data, meta, checkout_index: None, calls: Ghost(Seq::empty()) };
        assert(storage.nodes() =~= Seq::new(
            size as nat,
            |i: int| Seq::new(Z as nat, |j: int| Slot::zero(VALUE_SIZE as nat)),
        )) by {
            assert forall|k: int| 0 <= k < size implies #[trigger] storage.nodes()[k] == empty by {
                assert(model::slots(data@[k]@, meta@[k]@) == empty);
            }
        }
        storage
    }
}

impl<const VALUE_SIZE: usize, const Z: usize> ORAMStorage<VALUE_SIZE, Z> for HeapStorage<
    VALUE_SIZE,
    Z,
> {
    closed spec fn nodes(&self) -> Seq<Seq<Slot>> {
        model::buckets(self.data@, self.meta@)
    }

    closed spec fn checked_out(&self) -> Option<u64> {
        self.checkout_index
    }

    closed spec fn calls(&self) -> Seq<StorageCall> {
        self.calls@
    }

    closed spec fn wf(&self) -> bool {
        &&& self.data@.len() == self.meta@.len()
        &&& self.checkout_index matches Some(index) ==> index < self.data@.len()
    }

    fn len(&self) -> (len: u64) {
        self.data.len() as u64
    }

    fn checkout(
        &mut self,
        index: u64,
        dest: &mut [[[u8; VALUE_SIZE]; Z]],
        dest_meta: &mut [[Meta; Z]],
    ) {
        let ghost h = tree::height(index as nat);
        let ghost n0 = self.nodes();
        let size: usize = self.data.len();
        let mut node: u64 = index;
        let mut n: usize = 0;
        while node != 0
            invariant
                index != 0,
                index < size,
                size == self.data@.len(),
                self.data@.len() == self.meta@.len(),
                n0 == model::buckets(self.data@, self.meta@),
                self.nodes() == n0,
                *self == *old(self),
                h == tree::height(index as nat),
                dest@.len() == h + 1,
                dest_meta@.len() == h + 1,
                n <= h + 1,
                node <= index,
                node == tree::ancestor(index as nat, n as nat),
                n <= h ==> node != 0 && tree::height(node as nat) == h - n,
                n == h + 1 ==> node == 0,
                forall|i: int|
                    0 <= i < n ==> model::slots((#[trigger] dest@[i])@, dest_meta@[i]@)
                        == n0[tree::ancestor(index as nat, i as nat) as int],
            decreases node,
        {
            dest[n] = self.data[node as usize];
            dest_meta[n] = self.meta[node as usize];
            assert(n0[node as int] == model::slots(
                self.data@[node as int]@,
                self.meta@[node as int]@,
            ));
            proof {
                tree::lemma_ancestor_step(index as nat, n as nat);
            }
            node = node / 2;
            n = n + 1;
        }
        self.checkout_index = Some(index);
        self.calls = Ghost(self.calls@.push(StorageCall::Checkout(index)));
        assert(n == h + 1);
        assert(model::buckets(dest@, dest_meta@) =~= branch_of(n0, index)) by {
            assert forall|i: int| 0 <= i < h + 1 implies #[trigger] model::buckets(
                dest@,
                dest_meta@,
            )[i] == branch_of(n0, index)[i] by {
                assert(model::slots(dest@[i]@, dest_meta@[i]@) == n0[tree::ancestor(
                    index as nat,
                    i as nat,
                ) as int]);
            }
        }
    }

    fn checkin(
        &mut self,
        index: u64,
        src: &mut [[[u8; VALUE_SIZE]; Z]],
        src_meta: &mut [[Meta; Z]],
    ) {
        let ghost h = tree::height(index as nat);
        let ghost n0 = self.nodes();
        let ghost b = model::buckets(src@, src_meta@);
        proof {
            assert forall|t: nat| #[trigger]
                tree::is_ancestor(t, index as nat) implies tree::height(t) <= h by {
                tree::lemma_ancestor_bounds(t, index as nat);
            }
        }
        let size: usize = self.data.len();
        let mut node: u64 = index;
        let mut n: usize = 0;
        while node != 0
            invariant
                index != 0,
                index < size,
                size == self.data@.len(),
                self.data@.len() == self.meta@.len(),
                n0.len() == size,
                self.calls == old(self).calls,
                h == tree::height(index as nat),
                src@.len() == h + 1,
                src_meta@.len() == h + 1,
                b == model::buckets(src@, src_meta@),
                n <= h + 1,
                node <= index,
                node == tree::ancestor(index as nat, n as nat),
                n <= h ==> node != 0 && tree::height(node as nat) == h - n,
                n == h + 1 ==> node == 0,
                forall|t: int|
                    0 <= t < size ==> model::slots((#[trigger] self.data@[t])@, self.meta@[t]@)
                        == (if tree::is_ancestor(t as nat, index as nat) && tree::height(t as nat)
                        > h - n {
                        b[h - tree::height(t as nat)]
                    } else {
                        n0[t]
                    }),
            decreases node,
        {
            self.data[node as usize] = src[n];
            self.meta[node as usize] = src_meta[n];
            proof {
                tree::lemma_ancestor_step(index as nat, n as nat);
                assert(b[n as int] == model::slots(src@[n as int]@, src_meta@[n as int]@));
                assert forall|t: int| 0 <= t < size implies (t == node <==> (
                #[trigger] tree::is_ancestor(t as nat, index as nat) && tree::height(t as nat) == h
                    - n)) by {
                    if t >= 1 {
                        tree::lemma_is_ancestor_at(t as nat, index as nat);
                    }
                }
            }
            node = node / 2;
            n = n + 1;
        }
        self.checkout_index = None;
        self.calls = Ghost(self.calls@.push(StorageCall::Checkin(index)));
        proof {
            assert forall|t: int| 0 <= t < size implies #[trigger] self.nodes()[t] == with_branch(
                n0,
                index,
                b,
            )[t] by {
                assert(self.nodes()[t] == model::slots(self.data@[t]@, self.meta@[t]@));
                if tree::is_ancestor(t as nat, index as nat) {
                    tree::lemma_ancestor_bounds(t as nat, index as nat);
                }
            }
            assert(self.nodes() =~= with_branch(n0, index, b));
        }
    }
}

} // verus!
