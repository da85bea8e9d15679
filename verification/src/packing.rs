//! Where a block may stand in a branch, and how blocks move along it.
//!
//! A branch is the sequence of the buckets from a leaf up to the root: bucket
//! 0 is the leaf's, the last one is the root's. A block may stand in a bucket
//! whose node lies above the leaf that the block travels to.
use crate::model;
use crate::model::Slot;
use crate::tree;
use vstd::multiset::*;
use vstd::prelude::*;

verus! {

/// The first bucket of the branch of `leaf`, `len` buckets long, in which a
/// block that travels to `query` may stand. A vacant slot, whose `query` is 0,
/// is treated as if it travelled to the root.
pub open spec fn legal_index(query: u64, leaf: u64, len: nat) -> int {
    len - 1 - tree::height(
        tree::common_ancestor(
            leaf as nat,
            if query == 0 {
                1
            } else {
                query as nat
            },
        ),
    )
}

/// The first bucket from `from` up to `end` that has a vacant slot, or `end`.
pub open spec fn first_open(b: Seq<Seq<Slot>>, from: int, end: int) -> int
    decreases end - from,
{
    if from >= end {
        end
    } else if model::has_room(b[from]) {
        from
    } else {
        first_open(b, from + 1, end)
    }
}

/// The branch once `item` is put into the first vacant slot from bucket `from`
/// on, if there is one.
pub open spec fn placed(b: Seq<Seq<Slot>>, item: Slot, from: int) -> Seq<Seq<Slot>> {
    let j = first_open(b, from, b.len() as int);
    if j < b.len() {
        b.update(j, model::inserted(b[j], item))
    } else {
        b
    }
}

/// The branch once the block in slot `i` of bucket `n` is moved to the first
/// vacant slot of bucket `j`.
pub open spec fn relocated(b: Seq<Seq<Slot>>, n: int, i: int, j: int) -> Seq<Seq<Slot>> {
    b.update(j, model::inserted(b[j], b[n][i])).update(n, b[n].update(i, b[n][i].vacated()))
}

/// The branch once the block in slot `i` of bucket `n` is moved as far towards
/// the leaf as it may stand and as there is room.
pub open spec fn pack_slot(b: Seq<Seq<Slot>>, leaf: u64, n: int, i: int) -> Seq<Seq<Slot>> {
    let j = first_open(b, legal_index(b[n][i].leaf_num, leaf, b.len()), n);
    if !b[n][i].vacant() && j < n {
        relocated(b, n, i, j)
    } else {
        b
    }
}

/// The branch once the first `k` slots of bucket `n` are packed, in order.
pub open spec fn pack_bucket(b: Seq<Seq<Slot>>, leaf: u64, n: int, k: int) -> Seq<Seq<Slot>>
    decreases k,
{
    if k <= 0 {
        b
    } else {
        pack_slot(pack_bucket(b, leaf, n, k - 1), leaf, n, k - 1)
    }
}

/// The branch once the buckets before `n` are packed, from the leaf upwards.
pub open spec fn packed(b: Seq<Seq<Slot>>, leaf: u64, n: int) -> Seq<Seq<Slot>>
    decreases n,
{
    if n <= 1 {
        b
    } else {
        pack_bucket(packed(b, leaf, n - 1), leaf, n - 1, b[n - 1].len() as int)
    }
}

/// Whether some slot of the bucket holds block `query`.
pub open spec fn bucket_holds(s: Seq<Slot>, query: u64) -> bool {
    model::first_match(s, query, 0) < s.len()
}

/// The first bucket from `from` on that holds block `query`, or the number of
/// buckets.
pub open spec fn first_holder(b: Seq<Seq<Slot>>, query: u64, from: int) -> int
    decreases b.len() - from,
{
    if from >= b.len() {
        b.len() as int
    } else if bucket_holds(b[from], query) {
        from
    } else {
        first_holder(b, query, from + 1)
    }
}

/// The first slot that holds block `query`, in the first bucket that has one,
/// or `otherwise`.
pub open spec fn branch_found(b: Seq<Seq<Slot>>, query: u64, otherwise: Slot) -> Slot {
    let j = first_holder(b, query, 0);
    if j < b.len() {
        model::found(b[j], query, otherwise)
    } else {
        otherwise
    }
}

/// The branch once block `query` is taken out of the first slot that holds it,
/// in the first bucket that has one.
pub open spec fn branch_removed(b: Seq<Seq<Slot>>, query: u64) -> Seq<Seq<Slot>> {
    let j = first_holder(b, query, 0);
    if j < b.len() {
        b.update(j, model::removed(b[j], query))
    } else {
        b
    }
}

/// Whether every block of the branch stands where it may.
pub open spec fn legal(b: Seq<Seq<Slot>>, leaf: u64) -> bool {
    forall|j: int, i: int|
        0 <= j < b.len() && 0 <= i < b[j].len() && !(#[trigger] b[j][i]).vacant() ==> j
            >= legal_index(b[j][i].leaf_num, leaf, b.len())
}

/// Whether no block of the first `n` buckets could stand closer to the leaf:
/// every bucket in between in which it may stand is full.
pub open spec fn settled(b: Seq<Seq<Slot>>, leaf: u64, n: int) -> bool {
    forall|j: int, i: int, m: int|
        #![trigger b[j][i], b[m]]
        0 <= j < n && 0 <= i < b[j].len() && !b[j][i].vacant() && legal_index(
            b[j][i].leaf_num,
            leaf,
            b.len(),
        ) <= m < j ==> !model::has_room(b[m])
}

/// Whether two branches have as many buckets, with as many slots each.
pub open spec fn same_shape(a: Seq<Seq<Slot>>, b: Seq<Seq<Slot>>) -> bool {
    a.len() == b.len() && forall|j: int|
        #![trigger a[j]]
        #![trigger b[j]]
        0 <= j < a.len() ==> a[j].len() == b[j].len()
}

/// A branch is as long as its leaf is high, and the root's bucket may hold
/// any block.
pub proof fn lemma_legal_index(query: u64, leaf: u64, len: nat)
    requires
        leaf != 0,
        len == tree::height(leaf as nat) + 1,
    ensures
        0 <= legal_index(query, leaf, len) < len,
{
    let q: nat = if query == 0 {
        1
    } else {
        query as nat
    };
    tree::lemma_common_ancestor(leaf as nat, q, 1);
    tree::lemma_ancestor_bounds(tree::common_ancestor(leaf as nat, q), leaf as nat);
}

pub proof fn lemma_first_holder(b: Seq<Seq<Slot>>, query: u64, from: int)
    requires
        0 <= from <= b.len(),
    ensures
        from <= first_holder(b, query, from) <= b.len(),
        first_holder(b, query, from) < b.len() ==> bucket_holds(
            b[first_holder(b, query, from)],
            query,
        ),
        forall|m: int|
            from <= m < first_holder(b, query, from) ==> !bucket_holds(#[trigger] b[m], query),
    decreases b.len() - from,
{
    if from < b.len() && !bucket_holds(b[from], query) {
        lemma_first_holder(b, query, from + 1);
    }
}

pub proof fn lemma_first_open(b: Seq<Seq<Slot>>, from: int, end: int)
    requires
        0 <= from,
        end <= b.len(),
    ensures
        from < end ==> from <= first_open(b, from, end) <= end,
        first_open(b, from, end) < end ==> from <= first_open(b, from, end) && model::has_room(
            b[first_open(b, from, end)],
        ),
        first_open(b, from, end) <= end,
        forall|m: int|
            from <= m < first_open(b, from, end) ==> !model::has_room(#[trigger] b[m]),
    decreases end - from,
{
    if from < end && !model::has_room(b[from]) {
        lemma_first_open(b, from + 1, end);
    }
}

/// Only the buckets from `from` up to `end` decide which one is the first
/// with room.
pub proof fn lemma_first_open_same(a: Seq<Seq<Slot>>, b: Seq<Seq<Slot>>, from: int, end: int)
    requires
        0 <= from,
        end <= a.len(),
        end <= b.len(),
        forall|m: int| from <= m < end ==> a[m] == b[m],
    ensures
        first_open(a, from, end) == first_open(b, from, end),
    decreases end - from,
{
    if from < end {
        lemma_first_open_same(a, b, from + 1, end);
    }
}

/// Putting a block into a slot leaves no more room than there was, and the
/// slots hold what they held, and the block.
pub proof fn lemma_inserted(s: Seq<Slot>, item: Slot)
    requires
        !item.vacant(),
    ensures
        model::inserted(s, item).len() == s.len(),
        model::has_room(model::inserted(s, item)) ==> model::has_room(s),
        forall|i: int|
            0 <= i < s.len() ==> (#[trigger] model::inserted(s, item)[i]) == s[i]
                || model::inserted(s, item)[i] == item,
{
    let t = model::inserted(s, item);
    if model::has_room(t) {
        model::lemma_first_vacant(t, 0);
        model::lemma_first_vacant(s, 0);
        let v = model::first_vacant(t, 0);
        assert(t[v].vacant());
        assert(s[v].vacant());
    }
    model::lemma_first_vacant(s, 0);
}

/// Moving a block within a branch keeps the blocks.
pub proof fn lemma_relocated(b: Seq<Seq<Slot>>, leaf: u64, n: int, i: int, j: int)
    requires
        0 <= n < b.len(),
        0 <= i < b[n].len(),
        0 <= j < b.len(),
        j != n,
        model::has_room(b[j]),
        !b[n][i].vacant(),
    ensures
        same_shape(relocated(b, n, i, j), b),
        model::live_in(relocated(b, n, i, j)) == model::live_in(b),
        legal(b, leaf) && j >= legal_index(b[n][i].leaf_num, leaf, b.len()) ==> legal(
            relocated(b, n, i, j),
            leaf,
        ),
{
    let x = b[n][i];
    let b1 = b.update(j, model::inserted(b[j], x));
    let b2 = relocated(b, n, i, j);
    lemma_inserted(b[j], x);
    model::lemma_live_inserted(b[j], x);
    model::lemma_live_in_update(b, j, model::inserted(b[j], x));
    model::lemma_live_in_update(b1, n, b[n].update(i, x.vacated()));
    model::lemma_live_update(b[n], i, x.vacated());
    assert forall|v: Slot| model::live_in(b2).count(v) == model::live_in(b).count(v) by {
        let s1 = model::inserted(b[j], x);
        let s2 = b[n].update(i, x.vacated());
        assert(model::live_in(b1).add(model::live(b[j])).count(v) == model::live_in(b).add(
            model::live(s1),
        ).count(v));
        assert(model::live_in(b2).add(model::live(b[n])).count(v) == model::live_in(b1).add(
            model::live(s2),
        ).count(v));
        assert(model::live(s2).add(model::block_of(x)).count(v) == model::live(b[n]).add(
            model::block_of(x.vacated()),
        ).count(v));
        assert(model::live(s1).count(v) == model::live(b[j]).count(v)
            + model::block_of(x).count(v));
    }
    assert(model::live_in(b2) =~= model::live_in(b));
    if legal(b, leaf) && j >= legal_index(x.leaf_num, leaf, b.len()) {
        assert forall|k: int, l: int|
            0 <= k < b2.len() && 0 <= l < b2[k].len() && !(#[trigger] b2[k][l]).vacant() implies k
            >= legal_index(b2[k][l].leaf_num, leaf, b2.len()) by {
            if k == j {
                assert(b2[k][l] == b[k][l] || b2[k][l] == x);
            } else {
                assert(b2[k][l] == b[k][l]);
            }
        }
    }
}

pub proof fn lemma_pack_slot(b: Seq<Seq<Slot>>, leaf: u64, n: int, i: int)
    requires
        leaf != 0,
        b.len() == tree::height(leaf as nat) + 1,
        0 <= n < b.len(),
        0 <= i < b[n].len(),
    ensures
        same_shape(pack_slot(b, leaf, n, i), b),
        model::live_in(pack_slot(b, leaf, n, i)) == model::live_in(b),
        legal(b, leaf) ==> legal(pack_slot(b, leaf, n, i), leaf),
{
    let from = legal_index(b[n][i].leaf_num, leaf, b.len());
    lemma_legal_index(b[n][i].leaf_num, leaf, b.len());
    lemma_first_open(b, from, n);
    let j = first_open(b, from, n);
    if !b[n][i].vacant() && j < n {
        lemma_relocated(b, leaf, n, i, j);
    }
}

pub proof fn lemma_pack_bucket(b: Seq<Seq<Slot>>, leaf: u64, n: int, k: int)
    requires
        leaf != 0,
        b.len() == tree::height(leaf as nat) + 1,
        0 <= n < b.len(),
        k <= b[n].len(),
    ensures
        same_shape(pack_bucket(b, leaf, n, k), b),
        model::live_in(pack_bucket(b, leaf, n, k)) == model::live_in(b),
        legal(b, leaf) ==> legal(pack_bucket(b, leaf, n, k), leaf),
    decreases k,
{
    if k > 0 {
        lemma_pack_bucket(b, leaf, n, k - 1);
        lemma_pack_slot(pack_bucket(b, leaf, n, k - 1), leaf, n, k - 1);
    }
}

/// Packing a branch loses no block and puts none where it may not stand.
pub proof fn lemma_packed(b: Seq<Seq<Slot>>, leaf: u64, n: int)
    requires
        leaf != 0,
        b.len() == tree::height(leaf as nat) + 1,
        n <= b.len(),
    ensures
        same_shape(packed(b, leaf, n), b),
        model::live_in(packed(b, leaf, n)) == model::live_in(b),
        legal(b, leaf) ==> legal(packed(b, leaf, n), leaf),
    decreases n,
{
    if n > 1 {
        lemma_packed(b, leaf, n - 1);
        lemma_pack_bucket(packed(b, leaf, n - 1), leaf, n - 1, b[n - 1].len() as int);
    }
}

/// Putting a block into the branch adds it to the blocks of the branch.
pub proof fn lemma_placed(b: Seq<Seq<Slot>>, leaf: u64, item: Slot)
    requires
        leaf != 0,
        b.len() == tree::height(leaf as nat) + 1,
        !item.vacant(),
    ensures
        ({
            let from = legal_index(item.leaf_num, leaf, b.len());
            let c = placed(b, item, from);
            &&& same_shape(c, b)
            &&& first_open(b, from, b.len() as int) < b.len() ==> model::live_in(c)
                == model::live_in(b).add(Multiset::singleton(item))
            &&& legal(b, leaf) ==> legal(c, leaf)
        }),
{
    let from = legal_index(item.leaf_num, leaf, b.len());
    lemma_legal_index(item.leaf_num, leaf, b.len());
    lemma_first_open(b, from, b.len() as int);
    lemma_inserted(b[first_open(b, from, b.len() as int)], item);
    let j = first_open(b, from, b.len() as int);
    let c = placed(b, item, from);
    if j < b.len() {
        let s = model::inserted(b[j], item);
        model::lemma_live_inserted(b[j], item);
        model::lemma_live_in_update(b, j, s);
        assert forall|v: Slot|
            model::live_in(c).count(v) == model::live_in(b).count(v) + Multiset::singleton(
                item,
            ).count(v) by {
            assert(model::live_in(c).add(model::live(b[j])).count(v) == model::live_in(b).add(
                model::live(s),
            ).count(v));
            assert(model::live(s).count(v) == model::live(b[j]).count(v) + model::block_of(
                item,
            ).count(v));
        }
        assert(model::live_in(c) =~= model::live_in(b).add(Multiset::singleton(item)));
        if legal(b, leaf) {
            assert forall|k: int, l: int|
                0 <= k < c.len() && 0 <= l < c[k].len() && !(#[trigger] c[k][l]).vacant() implies k
                >= legal_index(c[k][l].leaf_num, leaf, c.len()) by {
                if k == j {
                    assert(c[k][l] == b[k][l] || c[k][l] == item);
                } else {
                    assert(c[k][l] == b[k][l]);
                }
            }
        }
    }
}

/// The stash and the branch once the block in slot `i` of the stash is moved
/// to the branch, as close to the leaf as it may stand and as there is room.
pub open spec fn unstash_slot(
    stash: Seq<Slot>,
    b: Seq<Seq<Slot>>,
    leaf: u64,
    i: int,
) -> (Seq<Slot>, Seq<Seq<Slot>>) {
    let from = legal_index(stash[i].leaf_num, leaf, b.len());
    if !stash[i].vacant() && first_open(b, from, b.len() as int) < b.len() {
        (stash.update(i, stash[i].vacated()), placed(b, stash[i], from))
    } else {
        (stash, b)
    }
}

/// The stash and the branch once the blocks in the first `k` slots of the
/// stash are moved to the branch, in order.
pub open spec fn unstashed(
    stash: Seq<Slot>,
    b: Seq<Seq<Slot>>,
    leaf: u64,
    k: int,
) -> (Seq<Slot>, Seq<Seq<Slot>>)
    decreases k,
{
    if k <= 0 {
        (stash, b)
    } else {
        let (s, c) = unstashed(stash, b, leaf, k - 1);
        unstash_slot(s, c, leaf, k - 1)
    }
}

pub proof fn lemma_unstash_slot(stash: Seq<Slot>, b: Seq<Seq<Slot>>, leaf: u64, i: int)
    requires
        leaf != 0,
        b.len() == tree::height(leaf as nat) + 1,
        0 <= i < stash.len(),
    ensures
        ({
            let (s, c) = unstash_slot(stash, b, leaf, i);
            &&& s.len() == stash.len()
            &&& same_shape(c, b)
            &&& model::live(s).add(model::live_in(c)) == model::live(stash).add(model::live_in(b))
            &&& legal(b, leaf) ==> legal(c, leaf)
        }),
{
    let x = stash[i];
    let (s, c) = unstash_slot(stash, b, leaf, i);
    if !x.vacant() {
        lemma_placed(b, leaf, x);
        model::lemma_live_update(stash, i, x.vacated());
        if first_open(b, legal_index(x.leaf_num, leaf, b.len()), b.len() as int) < b.len() {
            assert forall|v: Slot|
                model::live(s).count(v) + Multiset::singleton(x).count(v) == model::live(
                    stash,
                ).count(v) by {
                assert(model::live(s).add(model::block_of(x)).count(v) == model::live(stash).add(
                    model::block_of(x.vacated()),
                ).count(v));
            }
        }
        assert(model::live(s).add(model::live_in(c)) =~= model::live(stash).add(model::live_in(b)));
    }
}

/// Moving blocks from the stash to the branch loses none and puts none where
/// it may not stand.
pub proof fn lemma_unstashed(stash: Seq<Slot>, b: Seq<Seq<Slot>>, leaf: u64, k: int)
    requires
        leaf != 0,
        b.len() == tree::height(leaf as nat) + 1,
        k <= stash.len(),
    ensures
        ({
            let (s, c) = unstashed(stash, b, leaf, k);
            &&& s.len() == stash.len()
            &&& same_shape(c, b)
            &&& model::live(s).add(model::live_in(c)) == model::live(stash).add(model::live_in(b))
            &&& legal(b, leaf) ==> legal(c, leaf)
        }),
    decreases k,
{
    if k > 0 {
        lemma_unstashed(stash, b, leaf, k - 1);
        let (s, c) = unstashed(stash, b, leaf, k - 1);
        lemma_unstash_slot(s, c, leaf, k - 1);
    }
}

} // verus!
