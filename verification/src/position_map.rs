//! The map from the number of a block to the leaf that it travels to.
use crate::oblivious::{cmov_u64, ct_eq};
use crate::rng::{Draw, NodeRng};
use crate::tree;
use vstd::prelude::*;

verus! {

/// A write: `key` was given the leaf `new_val`, and `old_val` was returned.
pub struct PositionWrite {
    pub key: u64,
    pub new_val: u64,
    pub old_val: u64,
}

/// An array of leaves, all of the same height, which can be exchanged one at a
/// time. What an implementation holds is left open where it does not say.
pub trait PositionMap: Sized {
    /// The number of keys; the valid ones are those below it.
    open spec fn size(&self) -> nat {
        arbitrary::<spec_fn(Self) -> (nat, nat)>()(*self).0
    }

    /// The height of the leaves.
    open spec fn height(&self) -> nat {
        arbitrary::<spec_fn(Self) -> (nat, nat)>()(*self).1
    }

    /// The leaf of every key that was written.
    open spec fn positions(&self) -> Map<u64, u64> {
        arbitrary::<spec_fn(Self) -> Map<u64, u64>>()(*self)
    }

    /// What was written so far, in order.
    open spec fn writes(&self) -> Seq<PositionWrite> {
        arbitrary::<spec_fn(Self) -> Seq<PositionWrite>>()(*self)
    }

    /// What the implementation relies on; by default nothing.
    open spec fn wf(&self) -> bool {
        true
    }

    /// The number of keys.
    fn len(&self) -> (len: u64)
        requires
            self.wf(),
        ensures
            len == self.size(),
    ;

    /// Gives `key` a new leaf and returns the old one; if the key was not
    /// written before, that may be any leaf.
    fn write(&mut self, key: &u64, new_val: &u64) -> (old_val: u64)
        requires
            old(self).wf(),
            *key < old(self).size(),
            tree::is_leaf(*new_val, old(self).height()),
        ensures
            final(self).wf(),
            final(self).size() == old(self).size(),
            final(self).height() == old(self).height(),
            final(self).positions() == old(self).positions().insert(*key, *new_val),
            final(self).writes() == old(self).writes().push(
                (PositionWrite { key: *key, new_val: *new_val, old_val }),
            ),
            tree::is_leaf(old_val, old(self).height()),
            old(self).positions().contains_key(*key) ==> old_val == old(self).positions()[*key],
    ;
}

/// A position map in a vector, which is scanned as a whole at every access.
pub struct ScanningPositionMap<R> {
    /// The leaf of every key, 0 if it was not written yet.
    data: Vec<u64>,
    /// The height of the leaves.
    height: u32,
    /// What draws the leaf of a key that was not written yet.
    rng: R,
    /// What was written so far.
    writes: Ghost<Seq<PositionWrite>>,
}

impl<R: NodeRng> ScanningPositionMap<R> {
    /// A map of `size` keys to leaves of height `tree_height`, with nothing
    /// written.
    pub fn new(size: u64, tree_height: u32, rng: R) -> (map: Self)
        requires
            size <= usize::MAX,
            tree_height < 64,
        ensures
            map.wf(),
            map.size() == size,
            map.height() == tree_height,
            map.positions() == Map::<u64, u64>::empty(),
            map.writes() == Seq::<PositionWrite>::empty(),
            map.rng() == rng,
    {
        let mut data: Vec<u64> = Vec::new();
        let mut i: u64 = 0;
        while i < size
            invariant
                i <= size,
                data@.len() == i,
                forall|k: int| 0 <= k < i ==> #[trigger] data@[k] == 0,
            decreases size - i,
        {
            data.push(0);
            i = i + 1;
        }
        let map = ScanningPositionMap {
            data,
            height: tree_height,
            rng,
            writes: Ghost(Seq::empty()),
        };
        assert(map.positions() =~= Map::<u64, u64>::empty());
        map
    }

    /// What draws the leaf of a key that was not written yet.
    pub closed spec fn rng(&self) -> R {
        self.rng
    }
}

impl<R: NodeRng> PositionMap for ScanningPositionMap<R> {
    closed spec fn size(&self) -> nat {
        self.data@.len()
    }

    closed spec fn height(&self) -> nat {
        self.height as nat
    }

    closed spec fn positions(&self) -> Map<u64, u64> {
        Map::new(
            |k: u64| k < self.data@.len() && self.data@[k as int] != 0,
            |k: u64| self.data@[k as int],
        )
    }

    closed spec fn writes(&self) -> Seq<PositionWrite> {
        self.writes@
    }

    closed spec fn wf(&self) -> bool {
        &&& self.height < 64
        &&& forall|k: int|
            0 <= k < self.data@.len() && (#[trigger] self.data@[k]) != 0 ==> tree::is_leaf(
                self.data@[k],
                self.height as nat,
            )
    }

    fn len(&self) -> (len: u64) {
        self.data.len() as u64
    }

    /// Whether the key was written or not, a leaf is drawn; it is returned if
    /// the key was not written.
    fn write(&mut self, key: &u64, new_val: &u64) -> (old_val: u64)
        ensures
            exists|child: u64|
                final(self).rng().drawn() == #[trigger] old(self).rng().drawn().push(
                    (Draw { node: 1, tree_height: old(self).height() as u32, child }),
                ) && (!old(self).positions().contains_key(*key) ==> old_val == child),
    {
        let mut old_val: u64 = 0;
        let mut idx: usize = 0;
        while idx < self.data.len()
            invariant
                idx <= self.data@.len(),
                self.data@.len() == old(self).data@.len(),
                self.height == old(self).height,
                self.rng == old(self).rng,
                self.writes == old(self).writes,
                *key < self.data@.len(),
                old_val == (if *key < idx {
                    old(self).data@[*key as int]
                } else {
                    0
                }),
                forall|k: int|
                    0 <= k < self.data@.len() ==> #[trigger] self.data@[k] == (if k == *key && k
                        < idx {
                        *new_val
                    } else {
                        old(self).data@[k]
                    }),
            decreases self.data@.len() - idx,
        {
            let test: bool = ct_eq(idx as u64, *key);
            cmov_u64(test, &self.data[idx], &mut old_val);
            cmov_u64(test, new_val, &mut self.data[idx]);
            idx = idx + 1;
        }
        let unwritten: bool = ct_eq(old_val, 0);
        let random: u64 = self.rng.random_child_at_height(1, self.height);
        cmov_u64(unwritten, &random, &mut old_val);
        self.writes = Ghost(
            self.writes@.push(PositionWrite { key: *key, new_val: *new_val, old_val }),
        );
        assert(self.positions() =~= old(self).positions().insert(*key, *new_val));
        assert(self.rng().drawn() == old(self).rng().drawn().push(
            Draw { node: 1, tree_height: old(self).height() as u32, child: random },
        ));
        old_val
    }
}

} // verus!
