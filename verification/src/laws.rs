//! Laws that relate several functions of the library.
use crate::circuit;
use crate::circuit::Source;
use crate::contents;
use crate::evictor;
use crate::evictor::Evictor;
use crate::model;
use crate::model::Slot;
use crate::packing;
use crate::path_oram;
use crate::path_oram::PathORAM;
use crate::position_map::PositionMap;
use crate::rng::NodeRng;
use crate::storage;
use crate::storage::ORAMStorage;
use crate::tree;
use vstd::arithmetic::power2::*;
use vstd::prelude::*;

verus! {

// Slots.

/// A block that is put into a row of slots with room, none of which holds a
/// block of its number, is what is found under its number; and taking it out
/// again leaves the blocks that were there before.
pub proof fn law_insert_then_find(s: Seq<Slot>, item: Slot, otherwise: Slot)
    requires
        model::has_room(s),
        !item.vacant(),
        forall|i: int| 0 <= i < s.len() ==> !(#[trigger] s[i]).holds(item.block_num),
    ensures
        model::found(model::inserted(s, item), item.block_num, otherwise) == item,
        model::live(model::removed(model::inserted(s, item), item.block_num)) == model::live(s),
{
    let t = model::inserted(s, item);
    let at = model::first_vacant(s, 0);
    model::lemma_first_vacant(s, 0);
    model::lemma_first_match_is(t, item.block_num, 0, at);
    model::lemma_live_inserted(s, item);
    model::lemma_live_removed(t, item.block_num);
    assert forall|v: Slot|
        model::live(model::removed(t, item.block_num)).count(v) == model::live(s).count(v) by {
        assert(model::live(model::removed(t, item.block_num)).add(
            vstd::multiset::Multiset::singleton(item),
        ).count(v) == model::live(t).count(v));
    }
    assert(model::live(model::removed(t, item.block_num)) =~= model::live(s));
}

/// There are no more blocks than slots.
pub proof fn law_blocks_fit(s: Seq<Slot>)
    ensures
        model::live(s).len() <= s.len(),
    decreases s.len(),
{
    if s.len() > 0 {
        law_blocks_fit(s.drop_last());
    }
}

// Branches.

/// A block may stand in a bucket of a branch if and only if the bucket's node
/// lies above the leaf that the block travels to.
pub proof fn law_legal_is_above(query: u64, leaf: u64, j: int)
    requires
        leaf != 0,
        query != 0,
        0 <= j <= tree::height(leaf as nat),
    ensures
        j >= packing::legal_index(query, leaf, tree::height(leaf as nat) + 1)
            <==> tree::is_ancestor(tree::ancestor(leaf as nat, j as nat), query as nat),
{
    tree::lemma_ancestor_of_query(leaf as nat, query as nat, j as nat);
}

/// What is checked in is what is checked out next.
pub proof fn law_checkin_then_checkout(nodes: Seq<Seq<Slot>>, leaf: u64, b: Seq<Seq<Slot>>)
    requires
        0 < leaf < nodes.len(),
        b.len() == tree::height(leaf as nat) + 1,
    ensures
        storage::branch_of(storage::with_branch(nodes, leaf, b), leaf) == b,
{
    let again = storage::branch_of(storage::with_branch(nodes, leaf, b), leaf);
    assert forall|j: int| 0 <= j < b.len() implies again[j] == b[j] by {
        tree::lemma_ancestor_height(leaf as nat, j as nat);
        tree::lemma_ancestor_bounds(tree::ancestor(leaf as nat, j as nat), leaf as nat);
    }
    assert(again =~= b);
}

/// Checking a branch out and in again as it is changes nothing.
pub proof fn law_checkout_then_checkin(nodes: Seq<Seq<Slot>>, leaf: u64)
    requires
        0 < leaf < nodes.len(),
    ensures
        storage::with_branch(nodes, leaf, storage::branch_of(nodes, leaf)) == nodes,
{
    let after = storage::with_branch(nodes, leaf, storage::branch_of(nodes, leaf));
    assert forall|t: int| 0 <= t < nodes.len() implies after[t] == nodes[t] by {
        if tree::is_ancestor(t as nat, leaf as nat) {
            tree::lemma_is_ancestor_at(t as nat, leaf as nat);
        }
    }
    assert(after =~= nodes);
}

/// Packing a branch loses no block, and keeps every block where it may stand.
pub proof fn law_pack_keeps_blocks(b: Seq<Seq<Slot>>, leaf: u64)
    requires
        leaf != 0,
        b.len() == tree::height(leaf as nat) + 1,
    ensures
        ({
            let c = packing::packed(b, leaf, b.len() as int);
            &&& packing::same_shape(c, b)
            &&& model::live_in(c) == model::live_in(b)
            &&& packing::legal(b, leaf) ==> packing::legal(c, leaf)
        }),
{
    packing::lemma_packed(b, leaf, b.len() as int);
}

/// Whether the first `n` buckets, and the first `k` slots of bucket `n`, are
/// settled.
spec fn settled_to(b: Seq<Seq<Slot>>, leaf: u64, n: int, k: int) -> bool {
    &&& packing::settled(b, leaf, n)
    &&& forall|i: int, m: int|
        #![trigger b[n][i], b[m]]
        0 <= i < k && !b[n][i].vacant() && packing::legal_index(b[n][i].leaf_num, leaf, b.len())
            <= m < n ==> !model::has_room(b[m])
}

proof fn lemma_pack_slot_settles(b: Seq<Seq<Slot>>, leaf: u64, n: int, i: int)
    requires
        leaf != 0,
        b.len() == tree::height(leaf as nat) + 1,
        0 <= n < b.len(),
        0 <= i < b[n].len(),
        settled_to(b, leaf, n, i),
    ensures
        settled_to(packing::pack_slot(b, leaf, n, i), leaf, n, i + 1),
{
    let x = b[n][i];
    let from = packing::legal_index(x.leaf_num, leaf, b.len());
    packing::lemma_legal_index(x.leaf_num, leaf, b.len());
    packing::lemma_first_open(b, from, n);
    let at = packing::first_open(b, from, n);
    let c = packing::pack_slot(b, leaf, n, i);
    if !x.vacant() && at < n {
        packing::lemma_inserted(b[at], x);
        assert forall|m: int|
            0 <= m < n && model::has_room(#[trigger] c[m]) implies model::has_room(b[m]) by {}
        assert forall|j: int, l: int, m: int|
            #![trigger c[j][l], c[m]]
            0 <= j < n && 0 <= l < c[j].len() && !c[j][l].vacant() && packing::legal_index(
                c[j][l].leaf_num,
                leaf,
                c.len(),
            ) <= m < j implies !model::has_room(c[m]) by {
            packing::lemma_legal_index(c[j][l].leaf_num, leaf, c.len());
            if j == at && c[j][l] == x {
                assert(!model::has_room(b[m]));
            } else {
                assert(c[j][l] == b[j][l]);
                assert(!model::has_room(b[m]));
            }
        }
        assert forall|l: int, m: int|
            #![trigger c[n][l], c[m]]
            0 <= l < i + 1 && !c[n][l].vacant() && packing::legal_index(
                c[n][l].leaf_num,
                leaf,
                c.len(),
            ) <= m < n implies !model::has_room(c[m]) by {
            packing::lemma_legal_index(c[n][l].leaf_num, leaf, c.len());
            assert(c[n][l] == b[n][l]);
            assert(!model::has_room(b[m]));
        }
    }
}

proof fn lemma_pack_bucket_settles(b: Seq<Seq<Slot>>, leaf: u64, n: int, k: int)
    requires
        leaf != 0,
        b.len() == tree::height(leaf as nat) + 1,
        0 <= n < b.len(),
        0 <= k <= b[n].len(),
        packing::settled(b, leaf, n),
    ensures
        settled_to(packing::pack_bucket(b, leaf, n, k), leaf, n, k),
    decreases k,
{
    if k > 0 {
        lemma_pack_bucket_settles(b, leaf, n, k - 1);
        packing::lemma_pack_bucket(b, leaf, n, k - 1);
        lemma_pack_slot_settles(packing::pack_bucket(b, leaf, n, k - 1), leaf, n, k - 1);
    }
}

proof fn lemma_packed_settles(b: Seq<Seq<Slot>>, leaf: u64, n: int)
    requires
        leaf != 0,
        b.len() == tree::height(leaf as nat) + 1,
        n <= b.len(),
    ensures
        packing::settled(packing::packed(b, leaf, n), leaf, n),
    decreases n,
{
    if n > 1 {
        let p = packing::packed(b, leaf, n - 1);
        lemma_packed_settles(b, leaf, n - 1);
        packing::lemma_packed(b, leaf, n - 1);
        let k = b[n - 1].len() as int;
        lemma_pack_bucket_settles(p, leaf, n - 1, k);
        packing::lemma_pack_bucket(p, leaf, n - 1, k);
    } else {
        assert forall|j: int, i: int, m: int|
            #![trigger b[j][i], b[m]]
            0 <= j < n && 0 <= i < b[j].len() && !b[j][i].vacant() && packing::legal_index(
                b[j][i].leaf_num,
                leaf,
                b.len(),
            ) <= m < j implies !model::has_room(b[m]) by {
            packing::lemma_legal_index(b[j][i].leaf_num, leaf, b.len());
        }
    }
}

/// Once a branch is packed, no block of it could stand closer to the leaf:
/// every bucket in between in which it may stand is full.
pub proof fn law_pack_settles(b: Seq<Seq<Slot>>, leaf: u64)
    requires
        leaf != 0,
        b.len() == tree::height(leaf as nat) + 1,
    ensures
        packing::settled(packing::packed(b, leaf, b.len() as int), leaf, b.len() as int),
{
    lemma_packed_settles(b, leaf, b.len() as int);
}

proof fn lemma_settled_pack_bucket(b: Seq<Seq<Slot>>, leaf: u64, n: int, k: int)
    requires
        leaf != 0,
        b.len() == tree::height(leaf as nat) + 1,
        packing::settled(b, leaf, b.len() as int),
        0 <= n < b.len(),
        k <= b[n].len(),
    ensures
        packing::pack_bucket(b, leaf, n, k) == b,
    decreases k,
{
    if k > 0 {
        lemma_settled_pack_bucket(b, leaf, n, k - 1);
        let from = packing::legal_index(b[n][k - 1].leaf_num, leaf, b.len());
        packing::lemma_legal_index(b[n][k - 1].leaf_num, leaf, b.len());
        packing::lemma_first_open(b, from, n);
        let at = packing::first_open(b, from, n);
        if !b[n][k - 1].vacant() && at < n {
            assert(!model::has_room(b[at]));
        }
    }
}

proof fn lemma_settled_packed(b: Seq<Seq<Slot>>, leaf: u64, n: int)
    requires
        leaf != 0,
        b.len() == tree::height(leaf as nat) + 1,
        packing::settled(b, leaf, b.len() as int),
        n <= b.len(),
    ensures
        packing::packed(b, leaf, n) == b,
    decreases n,
{
    if n > 1 {
        lemma_settled_packed(b, leaf, n - 1);
        lemma_settled_pack_bucket(b, leaf, n - 1, b[n - 1].len() as int);
    }
}

/// Packing a branch again changes nothing.
pub proof fn law_pack_twice(b: Seq<Seq<Slot>>, leaf: u64)
    requires
        leaf != 0,
        b.len() == tree::height(leaf as nat) + 1,
    ensures
        ({
            let c = packing::packed(b, leaf, b.len() as int);
            packing::packed(c, leaf, c.len() as int) == c
        }),
{
    let c = packing::packed(b, leaf, b.len() as int);
    lemma_packed_settles(b, leaf, b.len() as int);
    packing::lemma_packed(b, leaf, b.len() as int);
    lemma_settled_packed(c, leaf, c.len() as int);
}

// Evictions.

/// Whether no block in the first `k` slots of the stash could stand in the
/// branch: every bucket in which it may stand is full.
pub open spec fn stuck(stash: Seq<Slot>, b: Seq<Seq<Slot>>, leaf: u64, k: int) -> bool {
    forall|i: int, m: int|
        #![trigger stash[i], b[m]]
        0 <= i < k && !stash[i].vacant() && packing::legal_index(
            stash[i].leaf_num,
            leaf,
            b.len(),
        ) <= m < b.len() ==> !model::has_room(b[m])
}

proof fn lemma_unstash_slot_settles(stash: Seq<Slot>, b: Seq<Seq<Slot>>, leaf: u64, i: int)
    requires
        leaf != 0,
        b.len() == tree::height(leaf as nat) + 1,
        0 <= i < stash.len(),
        packing::settled(b, leaf, b.len() as int),
        stuck(stash, b, leaf, i),
    ensures
        ({
            let (s, c) = packing::unstash_slot(stash, b, leaf, i);
            packing::settled(c, leaf, c.len() as int) && stuck(s, c, leaf, i + 1)
        }),
{
    let x = stash[i];
    let from = packing::legal_index(x.leaf_num, leaf, b.len());
    packing::lemma_legal_index(x.leaf_num, leaf, b.len());
    packing::lemma_first_open(b, from, b.len() as int);
    let at = packing::first_open(b, from, b.len() as int);
    let (s, c) = packing::unstash_slot(stash, b, leaf, i);
    if !x.vacant() && at < b.len() {
        packing::lemma_inserted(b[at], x);
        assert forall|m: int|
            0 <= m < b.len() && model::has_room(#[trigger] c[m]) implies model::has_room(
            b[m],
        ) by {}
        assert forall|j: int, l: int, m: int|
            #![trigger c[j][l], c[m]]
            0 <= j < c.len() && 0 <= l < c[j].len() && !c[j][l].vacant() && packing::legal_index(
                c[j][l].leaf_num,
                leaf,
                c.len(),
            ) <= m < j implies !model::has_room(c[m]) by {
            packing::lemma_legal_index(c[j][l].leaf_num, leaf, c.len());
            if j == at && c[j][l] == x {
                assert(!model::has_room(b[m]));
            } else {
                assert(c[j][l] == b[j][l]);
                assert(!model::has_room(b[m]));
            }
        }
        assert forall|l: int, m: int|
            #![trigger s[l], c[m]]
            0 <= l < i + 1 && !s[l].vacant() && packing::legal_index(s[l].leaf_num, leaf, c.len())
                <= m < c.len() implies !model::has_room(c[m]) by {
            packing::lemma_legal_index(s[l].leaf_num, leaf, c.len());
            assert(s[l] == stash[l]);
            assert(!model::has_room(b[m]));
        }
    }
}

proof fn lemma_unstashed_settles(stash: Seq<Slot>, b: Seq<Seq<Slot>>, leaf: u64, k: int)
    requires
        leaf != 0,
        b.len() == tree::height(leaf as nat) + 1,
        k <= stash.len(),
        packing::settled(b, leaf, b.len() as int),
    ensures
        ({
            let (s, c) = packing::unstashed(stash, b, leaf, k);
            packing::settled(c, leaf, c.len() as int) && stuck(s, c, leaf, k)
        }),
    decreases k,
{
    if k > 0 {
        lemma_unstashed_settles(stash, b, leaf, k - 1);
        packing::lemma_unstashed(stash, b, leaf, k - 1);
        let (s, c) = packing::unstashed(stash, b, leaf, k - 1);
        lemma_unstash_slot_settles(s, c, leaf, k - 1);
    }
}

/// The eviction of Path ORAM is greedy: afterwards no block of the branch could
/// stand closer to the leaf, and no block of the stash could stand in the
/// branch at all.
pub proof fn law_path_eviction_is_greedy<
    const VALUE_SIZE: usize,
    const Z: usize,
    const N: usize,
    R: NodeRng,
>(evictor: evictor::PathOramEvict<R>, stash: Seq<Slot>, b: Seq<Seq<Slot>>, leaf: u64)
    requires
        leaf != 0,
        b.len() == tree::height(leaf as nat) + 1,
    ensures
        ({
            let (s, c) = Evictor::<VALUE_SIZE, Z, N>::evicted(&evictor, stash, b, leaf);
            packing::settled(c, leaf, c.len() as int) && stuck(s, c, leaf, s.len() as int)
        }),
{
    let p = packing::packed(b, leaf, b.len() as int);
    packing::lemma_packed(b, leaf, b.len() as int);
    lemma_packed_settles(b, leaf, b.len() as int);
    lemma_unstashed_settles(stash, p, leaf, stash.len() as int);
    packing::lemma_unstashed(stash, p, leaf, stash.len() as int);
}

/// Whether `after` is `before` with some blocks taken out.
pub open spec fn only_vacated(before: Seq<Slot>, after: Seq<Slot>) -> bool {
    after.len() == before.len() && forall|i: int|
        0 <= i < before.len() ==> (#[trigger] after[i]) == before[i] || after[i]
            == before[i].vacated()
}

proof fn lemma_unstashed_only_vacates(stash: Seq<Slot>, b: Seq<Seq<Slot>>, leaf: u64, k: int)
    requires
        k <= stash.len(),
    ensures
        only_vacated(stash, packing::unstashed(stash, b, leaf, k).0),
    decreases k,
{
    if k > 0 {
        lemma_unstashed_only_vacates(stash, b, leaf, k - 1);
    }
}

/// The eviction of Path ORAM puts nothing into the stash.
pub proof fn law_path_eviction_stashes_nothing<
    const VALUE_SIZE: usize,
    const Z: usize,
    const N: usize,
    R: NodeRng,
>(evictor: evictor::PathOramEvict<R>, stash: Seq<Slot>, b: Seq<Seq<Slot>>, leaf: u64)
    ensures
        only_vacated(stash, Evictor::<VALUE_SIZE, Z, N>::evicted(&evictor, stash, b, leaf).0),
{
    lemma_unstashed_only_vacates(
        stash,
        packing::packed(b, leaf, b.len() as int),
        leaf,
        stash.len() as int,
    );
}

proof fn lemma_circuit_only_vacates(stash: Seq<Slot>, b: Seq<Seq<Slot>>, leaf: u64, n: int)
    ensures
        ({
            let s = circuit::evicted(stash, b, leaf, n).0;
            &&& only_vacated(stash, s)
            &&& model::live(stash).len() <= model::live(s).len() + 1
        }),
    decreases circuit::weight(stash, b), b.len() - n,
{
    if 0 <= n < b.len() {
        let s = circuit::stash_after(stash, b, leaf, n);
        let c = circuit::branch_after(stash, b, leaf, n);
        circuit::lemma_visit_weight(stash, b, leaf, n);
        lemma_circuit_only_vacates(s, c, leaf, circuit::bucket_after(stash, b, leaf, n));
        if circuit::fills(stash, b, leaf, n) {
            let src = circuit::deepest(stash, b, leaf, n).unwrap();
            assert(circuit::is_deepest(stash, b, leaf, n, src));
            if let Source::Stash(i) = src {
                circuit::lemma_live_len(stash, i, stash[i]);
            }
        }
    }
}

/// The eviction of Circuit ORAM puts nothing into the stash, and takes at most
/// one block out of it.
pub proof fn law_circuit_eviction_takes_one<
    const VALUE_SIZE: usize,
    const Z: usize,
    const N: usize,
>(
    evictor: evictor::CircuitOramNonobliviousEvict,
    stash: Seq<Slot>,
    b: Seq<Seq<Slot>>,
    leaf: u64,
)
    ensures
        ({
            let s = Evictor::<VALUE_SIZE, Z, N>::evicted(&evictor, stash, b, leaf).0;
            &&& only_vacated(stash, s)
            &&& model::live(stash).len() <= model::live(s).len() + 1
        }),
{
    lemma_circuit_only_vacates(stash, b, leaf, 0);
}

/// Whether a block of the stash could stand in the branch, in bucket `from` or
/// above it: a bucket in which it may stand has room.
pub open spec fn fits(stash: Seq<Slot>, b: Seq<Seq<Slot>>, leaf: u64, from: int) -> bool {
    exists|i: int, m: int|
        #![trigger stash[i], b[m]]
        0 <= i < stash.len() && !stash[i].vacant() && packing::legal_index(
            stash[i].leaf_num,
            leaf,
            b.len(),
        ) <= m && from <= m < b.len() && model::has_room(b[m])
}

proof fn lemma_circuit_takes(stash: Seq<Slot>, b: Seq<Seq<Slot>>, leaf: u64, n: int)
    requires
        0 <= n,
        fits(stash, b, leaf, n),
    ensures
        model::live(circuit::evicted(stash, b, leaf, n).0).len() + 1 == model::live(stash).len(),
    decreases circuit::weight(stash, b), b.len() - n,
{
    let (i, m) = choose|i: int, m: int|
        #![trigger stash[i], b[m]]
        0 <= i < stash.len() && !stash[i].vacant() && packing::legal_index(
            stash[i].leaf_num,
            leaf,
            b.len(),
        ) <= m && n <= m < b.len() && model::has_room(b[m]);
    let s = circuit::stash_after(stash, b, leaf, n);
    let c = circuit::branch_after(stash, b, leaf, n);
    let next = circuit::bucket_after(stash, b, leaf, n);
    circuit::lemma_visit_weight(stash, b, leaf, n);
    assert(circuit::evicted(stash, b, leaf, n) == circuit::evicted(s, c, leaf, next));
    circuit::lemma_deepest_exists(stash, b, leaf, n, Source::Stash(i));
    let src = circuit::deepest(stash, b, leaf, n).unwrap();
    if circuit::fills(stash, b, leaf, n) {
        match src {
            Source::Bucket(t, k) => {
                // The slot that the block came from is vacant now.
                assert(c[t][k].vacant());
                model::lemma_first_vacant(c[t], 0);
                assert(model::has_room(c[t]));
                let w = if m >= t {
                    m
                } else {
                    t
                };
                assert(model::has_room(c[w]));
                assert(s[i] == stash[i]);
                assert(fits(s, c, leaf, next));
                lemma_circuit_takes(s, c, leaf, next);
            },
            Source::Stash(k) => {
                circuit::lemma_live_len(stash, k, stash[k]);
                assert(circuit::evicted(s, c, leaf, next) == (s, c));
            },
        }
    } else {
        assert(m > n);
        assert(s[i] == stash[i] && c[m] == b[m]);
        assert(fits(s, c, leaf, next));
        lemma_circuit_takes(s, c, leaf, next);
    }
}

/// The eviction of Circuit ORAM takes exactly one block out of the stash,
/// whenever one could stand in the branch.
pub proof fn law_circuit_eviction_takes_what_fits<
    const VALUE_SIZE: usize,
    const Z: usize,
    const N: usize,
>(
    evictor: evictor::CircuitOramNonobliviousEvict,
    stash: Seq<Slot>,
    b: Seq<Seq<Slot>>,
    leaf: u64,
)
    requires
        fits(stash, b, leaf, 0),
    ensures
        model::live(Evictor::<VALUE_SIZE, Z, N>::evicted(&evictor, stash, b, leaf).0).len() + 1
            == model::live(stash).len(),
{
    lemma_circuit_takes(stash, b, leaf, 0);
}

/// Whether no block of `before` is farther from the leaf in `after`: whatever
/// was in the first `k` buckets still is.
pub open spec fn moved_down(before: Seq<Seq<Slot>>, after: Seq<Seq<Slot>>) -> bool {
    &&& after.len() == before.len()
    &&& forall|k: int, x: Slot|
        #![trigger model::live_in(after.take(k)).count(x)]
        0 <= k <= before.len() ==> model::live_in(before.take(k)).count(x) <= model::live_in(
            after.take(k),
        ).count(x)
}

proof fn lemma_moved_down_twice(a: Seq<Seq<Slot>>, b: Seq<Seq<Slot>>, c: Seq<Seq<Slot>>)
    requires
        moved_down(a, b),
        moved_down(b, c),
    ensures
        moved_down(a, c),
{
    assert forall|k: int, x: Slot|
        #![trigger model::live_in(c.take(k)).count(x)]
        0 <= k <= a.len() implies model::live_in(a.take(k)).count(x) <= model::live_in(
        c.take(k),
    ).count(x) by {
        assert(model::live_in(a.take(k)).count(x) <= model::live_in(b.take(k)).count(x));
    }
}

proof fn lemma_insert_moves_down(b: Seq<Seq<Slot>>, j: int, item: Slot)
    requires
        0 <= j < b.len(),
        model::has_room(b[j]),
    ensures
        moved_down(b, b.update(j, model::inserted(b[j], item))),
{
    let t = model::inserted(b[j], item);
    let c = b.update(j, t);
    model::lemma_live_inserted(b[j], item);
    assert forall|k: int, x: Slot|
        #![trigger model::live_in(c.take(k)).count(x)]
        0 <= k <= b.len() implies model::live_in(b.take(k)).count(x) <= model::live_in(
        c.take(k),
    ).count(x) by {
        if k <= j {
            assert(c.take(k) =~= b.take(k));
        } else {
            assert(c.take(k) =~= b.take(k).update(j, t));
            model::lemma_live_in_update(b.take(k), j, t);
            assert(model::live_in(c.take(k)).add(model::live(b[j])).count(x) == model::live_in(
                b.take(k),
            ).add(model::live(t)).count(x));
        }
    }
}

proof fn lemma_relocated_moves_down(b: Seq<Seq<Slot>>, n: int, i: int, j: int)
    requires
        0 <= j < n < b.len(),
        0 <= i < b[n].len(),
        model::has_room(b[j]),
        !b[n][i].vacant(),
    ensures
        moved_down(b, packing::relocated(b, n, i, j)),
{
    let d = packing::relocated(b, n, i, j);
    let c = b.update(j, model::inserted(b[j], b[n][i]));
    lemma_insert_moves_down(b, j, b[n][i]);
    assert forall|k: int, x: Slot|
        #![trigger model::live_in(d.take(k)).count(x)]
        0 <= k <= b.len() implies model::live_in(b.take(k)).count(x) <= model::live_in(
        d.take(k),
    ).count(x) by {
        if k <= n {
            assert(d.take(k) =~= c.take(k));
            assert(model::live_in(b.take(k)).count(x) <= model::live_in(c.take(k)).count(x));
        } else {
            assert(d.take(k) =~= packing::relocated(b.take(k), n, i, j));
            packing::lemma_relocated(b.take(k), 1, n, i, j);
        }
    }
}

proof fn lemma_pack_bucket_moves_down(b: Seq<Seq<Slot>>, leaf: u64, n: int, k: int)
    requires
        leaf != 0,
        b.len() == tree::height(leaf as nat) + 1,
        0 <= n < b.len(),
        k <= b[n].len(),
    ensures
        moved_down(b, packing::pack_bucket(b, leaf, n, k)),
    decreases k,
{
    if k > 0 {
        let c = packing::pack_bucket(b, leaf, n, k - 1);
        lemma_pack_bucket_moves_down(b, leaf, n, k - 1);
        packing::lemma_pack_bucket(b, leaf, n, k - 1);
        let x = c[n][k - 1];
        let from = packing::legal_index(x.leaf_num, leaf, c.len());
        packing::lemma_legal_index(x.leaf_num, leaf, c.len());
        packing::lemma_first_open(c, from, n);
        let at = packing::first_open(c, from, n);
        if !x.vacant() && at < n {
            lemma_relocated_moves_down(c, n, k - 1, at);
            lemma_moved_down_twice(b, c, packing::relocated(c, n, k - 1, at));
        }
    }
}

proof fn lemma_packed_moves_down(b: Seq<Seq<Slot>>, leaf: u64, n: int)
    requires
        leaf != 0,
        b.len() == tree::height(leaf as nat) + 1,
        n <= b.len(),
    ensures
        moved_down(b, packing::packed(b, leaf, n)),
    decreases n,
{
    if n > 1 {
        let c = packing::packed(b, leaf, n - 1);
        lemma_packed_moves_down(b, leaf, n - 1);
        packing::lemma_packed(b, leaf, n - 1);
        lemma_pack_bucket_moves_down(c, leaf, n - 1, b[n - 1].len() as int);
        lemma_moved_down_twice(b, c, packing::packed(b, leaf, n));
    }
}

/// Packing a branch moves no block away from the leaf.
pub proof fn law_pack_moves_down(b: Seq<Seq<Slot>>, leaf: u64)
    requires
        leaf != 0,
        b.len() == tree::height(leaf as nat) + 1,
    ensures
        moved_down(b, packing::packed(b, leaf, b.len() as int)),
{
    lemma_packed_moves_down(b, leaf, b.len() as int);
}

proof fn lemma_unstashed_moves_down(stash: Seq<Slot>, b: Seq<Seq<Slot>>, leaf: u64, k: int)
    requires
        leaf != 0,
        b.len() == tree::height(leaf as nat) + 1,
        k <= stash.len(),
    ensures
        moved_down(b, packing::unstashed(stash, b, leaf, k).1),
    decreases k,
{
    if k > 0 {
        lemma_unstashed_moves_down(stash, b, leaf, k - 1);
        packing::lemma_unstashed(stash, b, leaf, k - 1);
        let (s, c) = packing::unstashed(stash, b, leaf, k - 1);
        let x = s[k - 1];
        let from = packing::legal_index(x.leaf_num, leaf, c.len());
        packing::lemma_legal_index(x.leaf_num, leaf, c.len());
        packing::lemma_first_open(c, from, c.len() as int);
        let at = packing::first_open(c, from, c.len() as int);
        if !x.vacant() && at < c.len() {
            lemma_insert_moves_down(c, at, x);
            lemma_moved_down_twice(b, c, packing::placed(c, x, from));
        }
    }
}

/// The eviction of Path ORAM moves no block of the branch away from the leaf.
pub proof fn law_path_eviction_moves_down<
    const VALUE_SIZE: usize,
    const Z: usize,
    const N: usize,
    R: NodeRng,
>(evictor: evictor::PathOramEvict<R>, stash: Seq<Slot>, b: Seq<Seq<Slot>>, leaf: u64)
    requires
        leaf != 0,
        b.len() == tree::height(leaf as nat) + 1,
    ensures
        moved_down(b, Evictor::<VALUE_SIZE, Z, N>::evicted(&evictor, stash, b, leaf).1),
{
    let p = packing::packed(b, leaf, b.len() as int);
    lemma_packed_moves_down(b, leaf, b.len() as int);
    packing::lemma_packed(b, leaf, b.len() as int);
    lemma_unstashed_moves_down(stash, p, leaf, stash.len() as int);
    lemma_moved_down_twice(b, p, packing::unstashed(stash, p, leaf, stash.len() as int).1);
}

proof fn lemma_circuit_moves_down(stash: Seq<Slot>, b: Seq<Seq<Slot>>, leaf: u64, n: int)
    ensures
        moved_down(b, circuit::evicted(stash, b, leaf, n).1),
    decreases circuit::weight(stash, b), b.len() - n,
{
    if 0 <= n < b.len() {
        let s = circuit::stash_after(stash, b, leaf, n);
        let c = circuit::branch_after(stash, b, leaf, n);
        circuit::lemma_visit_weight(stash, b, leaf, n);
        lemma_circuit_moves_down(s, c, leaf, circuit::bucket_after(stash, b, leaf, n));
        if circuit::fills(stash, b, leaf, n) {
            let src = circuit::deepest(stash, b, leaf, n).unwrap();
            assert(circuit::is_deepest(stash, b, leaf, n, src));
            match src {
                Source::Bucket(m, i) => {
                    lemma_relocated_moves_down(b, m, i, n);
                },
                Source::Stash(i) => {
                    lemma_insert_moves_down(b, n, stash[i]);
                },
            }
        }
        lemma_moved_down_twice(b, c, circuit::evicted(stash, b, leaf, n).1);
    }
}

/// The eviction of Circuit ORAM moves no block of the branch away from the
/// leaf.
pub proof fn law_circuit_eviction_moves_down<
    const VALUE_SIZE: usize,
    const Z: usize,
    const N: usize,
>(
    evictor: evictor::CircuitOramNonobliviousEvict,
    stash: Seq<Slot>,
    b: Seq<Seq<Slot>>,
    leaf: u64,
)
    ensures
        moved_down(b, Evictor::<VALUE_SIZE, Z, N>::evicted(&evictor, stash, b, leaf).1),
{
    lemma_circuit_moves_down(stash, b, leaf, 0);
}

/// The bit that is added in front ends up last.
proof fn lemma_reversed_top_bit(z: nat, bit: nat, n: nat)
    requires
        z < pow2(n),
        bit <= 1,
    ensures
        tree::reversed_bits(bit * pow2(n) + z, n + 1) == 2 * tree::reversed_bits(z, n) + bit,
    decreases n,
{
    let w = bit * pow2(n) + z;
    lemma2_to64();
    if n == 0 {
        assert(w == bit) by (nonlinear_arith)
            requires
                w == bit * 1 + z,
                z < 1,
        ;
        reveal_with_fuel(tree::reversed_bits, 2);
    } else {
        let p = pow2((n - 1) as nat);
        lemma_pow2_unfold(n);
        assert(bit * pow2(n) == 2 * (bit * p)) by (nonlinear_arith)
            requires
                pow2(n) == 2 * p,
        ;
        assert(w % 2 == z % 2);
        assert(w / 2 == bit * p + z / 2);
        lemma_reversed_top_bit(z / 2, bit, (n - 1) as nat);
    }
}

/// Reversing the bits of a number twice gives it back.
pub proof fn law_bit_reverse_twice(x: nat, bits: nat)
    requires
        x < pow2(bits),
    ensures
        tree::reversed_bits(tree::reversed_bits(x, bits), bits) == x,
    decreases bits,
{
    lemma2_to64();
    if bits > 0 {
        let n = (bits - 1) as nat;
        lemma_pow2_unfold(bits);
        law_bit_reverse_twice(x / 2, n);
        tree::lemma_reversed_bits_bound(x / 2, n);
        lemma_reversed_top_bit(tree::reversed_bits(x / 2, n), x % 2, n);
        assert((x % 2) * pow2(n) == if x % 2 == 0 { 0 } else { pow2(n) }) by (nonlinear_arith)
            requires
                x % 2 <= 1,
        ;
    }
}

/// Over as many turns as there are leaves, wherever they start, the
/// deterministic order chooses every leaf once: there is a turn at which it is
/// chosen, and no other one.
pub proof fn law_turns_choose_every_leaf(start: nat, leaf: nat, tree_height: nat) -> (turn: nat)
    requires
        pow2(tree_height) <= leaf < pow2(tree_height + 1),
    ensures
        start <= turn < start + pow2(tree_height),
        evictor::leaf_at_turn(turn, tree_height) == leaf,
        forall|other: nat|
            start <= other < start + pow2(tree_height) && #[trigger] evictor::leaf_at_turn(
                other,
                tree_height,
            ) == leaf ==> other == turn,
{
    let p = pow2(tree_height);
    lemma_pow2_pos(tree_height);
    lemma_pow2_unfold(tree_height + 1);
    let r = tree::reversed_bits((leaf - p) as nat, tree_height);
    tree::lemma_reversed_bits_bound((leaf - p) as nat, tree_height);
    law_bit_reverse_twice((leaf - p) as nat, tree_height);
    let q = start % p;
    let turn = if r >= q {
        (start - q + r) as nat
    } else {
        (start - q + r + p) as nat
    };
    let d = start / p;
    vstd::arithmetic::div_mod::lemma_fundamental_div_mod(start as int, p as int);
    assert(turn % p == r) by {
        if r >= q {
            assert(d * p == p * d) by (nonlinear_arith);
            vstd::arithmetic::div_mod::lemma_fundamental_div_mod_converse(
                turn as int,
                p as int,
                d as int,
                r as int,
            );
        } else {
            assert((d + 1) * p == p * d + p) by (nonlinear_arith);
            vstd::arithmetic::div_mod::lemma_fundamental_div_mod_converse(
                turn as int,
                p as int,
                d as int + 1,
                r as int,
            );
        }
    }
    assert forall|other: nat|
        start <= other < start + p && #[trigger] evictor::leaf_at_turn(other, tree_height)
            == leaf implies other == turn by {
        law_bit_reverse_twice(other % p, tree_height);
        assert(other % p == r);
        let e = other / p;
        let g = turn / p;
        vstd::arithmetic::div_mod::lemma_fundamental_div_mod(other as int, p as int);
        vstd::arithmetic::div_mod::lemma_fundamental_div_mod(turn as int, p as int);
        assert(e == g) by (nonlinear_arith)
            requires
                -p < (p * e + r) - (p * g + r) < p,
                p > 0,
        ;
    }
    turn
}

/// What is chosen at a turn in a tree lies below what would be chosen at that
/// turn in a tree that is one lower.
proof fn lemma_leaf_at_turn_above(turn: nat, tree_height: nat)
    requires
        tree_height > 0,
    ensures
        evictor::leaf_at_turn(turn, tree_height) / 2 == evictor::leaf_at_turn(
            turn,
            (tree_height - 1) as nat,
        ),
{
    let n = (tree_height - 1) as nat;
    let p = pow2(n);
    lemma_pow2_unfold(tree_height);
    lemma_pow2_pos(n);
    let y = turn % pow2(tree_height);
    let z = turn % p;
    vstd::arithmetic::div_mod::lemma_mod_mod(turn as int, p as int, 2);
    assert(p * 2 == pow2(tree_height));
    assert(y % p == z);
    vstd::arithmetic::div_mod::lemma_fundamental_div_mod(y as int, p as int);
    let bit = y / p;
    assert(bit <= 1 && bit * p + z == y) by (nonlinear_arith)
        requires
            y == p * bit + z,
            y < 2 * p,
            p > 0,
            z >= 0,
    ;
    lemma_reversed_top_bit(z, bit, n);
}

proof fn lemma_ancestor_at_turn(turn: nat, tree_height: nat, i: nat)
    requires
        i <= tree_height,
    ensures
        tree::ancestor(evictor::leaf_at_turn(turn, tree_height), i) == evictor::leaf_at_turn(
            turn,
            (tree_height - i) as nat,
        ),
    decreases i,
{
    if i > 0 {
        lemma_leaf_at_turn_above(turn, tree_height);
        lemma_ancestor_at_turn(turn, (tree_height - 1) as nat, (i - 1) as nat);
    }
}

/// Over as many turns as there are nodes of a height, wherever they start, the
/// deterministic order passes every node of that height once: there is a turn
/// at which the leaf that is chosen lies below it, and no other one.
pub proof fn law_turns_pass_every_node(start: nat, node: nat, tree_height: nat) -> (turn: nat)
    requires
        node >= 1,
        tree::height(node) <= tree_height,
    ensures
        start <= turn < start + pow2(tree::height(node)),
        tree::is_ancestor(node, evictor::leaf_at_turn(turn, tree_height)),
        forall|other: nat|
            start <= other < start + pow2(tree::height(node)) && #[trigger] tree::is_ancestor(
                node,
                evictor::leaf_at_turn(other, tree_height),
            ) ==> other == turn,
{
    let k = tree::height(node);
    tree::lemma_height_bounds(node);
    let turn = law_turns_choose_every_leaf(start, node, k);
    assert forall|t: nat| #[trigger]
        tree::is_ancestor(node, evictor::leaf_at_turn(t, tree_height)) <==> evictor::leaf_at_turn(
            t,
            k,
        ) == node by {
        evictor::lemma_leaf_at_turn(t, tree_height);
        lemma_pow2_pos(tree_height);
        tree::lemma_is_ancestor_at(node, evictor::leaf_at_turn(t, tree_height));
        lemma_ancestor_at_turn(t, tree_height, (tree_height - k) as nat);
    }
    assert(tree::is_ancestor(node, evictor::leaf_at_turn(turn, tree_height)));
    turn
}

// The array.

/// If the size and the number of blocks of a bucket are powers of two, the
/// buckets of the leaves have as many slots as there are values.
pub proof fn law_leaves_hold_every_value(log_size: nat, log_z: nat)
    requires
        log_z <= log_size,
    ensures
        pow2(path_oram::tree_height(pow2(log_size), pow2(log_z))) * pow2(log_z) == pow2(log_size),
{
    path_oram::lemma_log2_ceil_pow2(log_size);
    path_oram::lemma_log2_ceil_pow2(log_z);
    lemma_pow2_adds((log_size - log_z) as nat, log_z);
}

proof fn lemma_evictions_touch_branches<
    const VALUE_SIZE: usize,
    const Z: usize,
    const N: usize,
    E: Evictor<VALUE_SIZE, Z, N>,
>(evictor: E, stash: Seq<Slot>, nodes: Seq<Seq<Slot>>, leaves: Seq<u64>, k: int, t: int)
    requires
        0 <= t < nodes.len(),
        k <= leaves.len(),
        forall|i: int|
            0 <= i < k ==> !tree::is_ancestor(t as nat, #[trigger] leaves[i] as nat),
    ensures
        ({
            let after = path_oram::evict_branches::<VALUE_SIZE, Z, N, E>(
                evictor,
                stash,
                nodes,
                leaves,
                k,
            ).1;
            after.len() == nodes.len() && after[t] == nodes[t]
        }),
    decreases k,
{
    if k > 0 {
        lemma_evictions_touch_branches::<VALUE_SIZE, Z, N, E>(
            evictor,
            stash,
            nodes,
            leaves,
            k - 1,
            t,
        );
        assert(!tree::is_ancestor(t as nat, leaves[k - 1] as nat));
    }
}

/// What is asked of storage tells nothing but the branch that the block was on
/// and the branches that the evictor chose: two accesses for which these are
/// the same ask the same, in the same order, whatever the keys, what is done to
/// the values, and what the arrays hold.
pub proof fn law_access_is_oblivious<
    const VALUE_SIZE1: usize,
    const Z1: usize,
    const VALUE_SIZE2: usize,
    const Z2: usize,
    const N: usize,
    S1: ORAMStorage<VALUE_SIZE1, Z1>,
    P1: PositionMap,
    R1: NodeRng,
    E1: Evictor<VALUE_SIZE1, Z1, N>,
    S2: ORAMStorage<VALUE_SIZE2, Z2>,
    P2: PositionMap,
    R2: NodeRng,
    E2: Evictor<VALUE_SIZE2, Z2, N>,
>(
    before1: PathORAM<VALUE_SIZE1, Z1, N, S1, P1, R1, E1>,
    after1: PathORAM<VALUE_SIZE1, Z1, N, S1, P1, R1, E1>,
    key1: u64,
    new_pos1: u64,
    before2: PathORAM<VALUE_SIZE2, Z2, N, S2, P2, R2, E2>,
    after2: PathORAM<VALUE_SIZE2, Z2, N, S2, P2, R2, E2>,
    key2: u64,
    new_pos2: u64,
    old_pos: u64,
    leaves: Seq<u64>,
)
    requires
        after1.accessed_from(&before1, key1, old_pos, new_pos1, leaves),
        after2.accessed_from(&before2, key2, old_pos, new_pos2, leaves),
    ensures
        before1.calls().is_prefix_of(after1.calls()),
        before2.calls().is_prefix_of(after2.calls()),
        after1.calls().skip(before1.calls().len() as int) == after2.calls().skip(
            before2.calls().len() as int,
        ),
{
    let asked = storage::visits(seq![old_pos] + leaves);
    assert(after1.calls().skip(before1.calls().len() as int) =~= asked);
    assert(after2.calls().skip(before2.calls().len() as int) =~= asked);
}

/// Putting a branch back and evicting to it is putting back what the eviction
/// makes of it.
proof fn lemma_evict_replaced<
    const VALUE_SIZE: usize,
    const Z: usize,
    const N: usize,
    E: Evictor<VALUE_SIZE, Z, N>,
>(evictor: E, stash: Seq<Slot>, nodes: Seq<Seq<Slot>>, leaf: u64, item: Slot)
    requires
        0 < leaf < nodes.len(),
    ensures
        ({
            let (s, n) = path_oram::stash_block(stash, nodes, leaf, item);
            path_oram::evict_branch::<VALUE_SIZE, Z, N, E>(evictor, s, n, leaf)
                == path_oram::replace_block::<VALUE_SIZE, Z, N, E>(
                evictor,
                stash,
                nodes,
                leaf,
                item,
            )
        }),
{
    let (s, n) = path_oram::stash_block(stash, nodes, leaf, item);
    let b = packing::branch_removed(storage::branch_of(nodes, leaf), item.block_num);
    packing::lemma_first_holder(storage::branch_of(nodes, leaf), item.block_num, 0);
    law_checkin_then_checkout(nodes, leaf, b);
    let c = evictor.evicted(s, b, leaf).1;
    assert(storage::with_branch(n, leaf, c) =~= storage::with_branch(nodes, leaf, c));
}

/// The eviction to a first branch can be done beforehand.
proof fn lemma_evict_first<
    const VALUE_SIZE: usize,
    const Z: usize,
    const N: usize,
    E: Evictor<VALUE_SIZE, Z, N>,
>(
    evictor: E,
    stash: Seq<Slot>,
    nodes: Seq<Seq<Slot>>,
    first: u64,
    leaves: Seq<u64>,
    k: int,
)
    requires
        0 <= k <= leaves.len(),
    ensures
        ({
            let (s, n) = path_oram::evict_branch::<VALUE_SIZE, Z, N, E>(
                evictor,
                stash,
                nodes,
                first,
            );
            path_oram::evict_branches::<VALUE_SIZE, Z, N, E>(
                evictor,
                stash,
                nodes,
                seq![first] + leaves,
                k + 1,
            ) == path_oram::evict_branches::<VALUE_SIZE, Z, N, E>(evictor, s, n, leaves, k)
        }),
    decreases k,
{
    let all = seq![first] + leaves;
    if k > 0 {
        lemma_evict_first::<VALUE_SIZE, Z, N, E>(evictor, stash, nodes, first, leaves, k - 1);
        assert(all[k] == leaves[k - 1]);
    } else {
        reveal_with_fuel(path_oram::evict_branches, 2);
        assert(all[0] == first);
    }
}

/// Whether an evictor puts nothing into the stash.
pub open spec fn stashes_nothing<
    const VALUE_SIZE: usize,
    const Z: usize,
    const N: usize,
    E: Evictor<VALUE_SIZE, Z, N>,
>(evictor: E) -> bool {
    forall|stash: Seq<Slot>, b: Seq<Seq<Slot>>, leaf: u64|
        only_vacated(stash, (#[trigger] evictor.evicted(stash, b, leaf)).0)
}

/// Neither the evictor of Path ORAM nor the one of Circuit ORAM puts anything
/// into the stash.
pub proof fn law_evictors_stash_nothing<
    const VALUE_SIZE: usize,
    const Z: usize,
    const N: usize,
    R: NodeRng,
>(path: evictor::PathOramEvict<R>, other: evictor::CircuitOramNonobliviousEvict)
    ensures
        stashes_nothing::<VALUE_SIZE, Z, N, evictor::PathOramEvict<R>>(path),
        stashes_nothing::<VALUE_SIZE, Z, N, evictor::CircuitOramNonobliviousEvict>(other),
{
    assert forall|stash: Seq<Slot>, b: Seq<Seq<Slot>>, leaf: u64|
        only_vacated(
            stash,
            (#[trigger] Evictor::<VALUE_SIZE, Z, N>::evicted(&path, stash, b, leaf)).0,
        ) by {
        law_path_eviction_stashes_nothing::<VALUE_SIZE, Z, N, R>(path, stash, b, leaf);
    }
    assert forall|stash: Seq<Slot>, b: Seq<Seq<Slot>>, leaf: u64|
        only_vacated(
            stash,
            (#[trigger] Evictor::<VALUE_SIZE, Z, N>::evicted(&other, stash, b, leaf)).0,
        ) by {
        law_circuit_eviction_takes_one::<VALUE_SIZE, Z, N>(other, stash, b, leaf);
    }
}

proof fn lemma_only_vacated_len(before: Seq<Slot>, after: Seq<Slot>)
    requires
        only_vacated(before, after),
    ensures
        model::live(after).len() <= model::live(before).len(),
    decreases before.len(),
{
    if before.len() > 0 {
        assert forall|i: int| 0 <= i < before.len() - 1 implies (
        #[trigger] after.drop_last()[i]) == before.drop_last()[i] || after.drop_last()[i]
            == before.drop_last()[i].vacated() by {
            assert(after[i] == before[i] || after[i] == before[i].vacated());
        }
        lemma_only_vacated_len(before.drop_last(), after.drop_last());
        assert(after.last() == after[after.len() - 1]);
    }
}

proof fn lemma_evictions_shrink_stash<
    const VALUE_SIZE: usize,
    const Z: usize,
    const N: usize,
    E: Evictor<VALUE_SIZE, Z, N>,
>(evictor: E, stash: Seq<Slot>, nodes: Seq<Seq<Slot>>, leaves: Seq<u64>, k: int)
    requires
        stashes_nothing::<VALUE_SIZE, Z, N, E>(evictor),
    ensures
        model::live(
            path_oram::evict_branches::<VALUE_SIZE, Z, N, E>(
                evictor,
                stash,
                nodes,
                leaves,
                k,
            ).0,
        ).len() <= model::live(stash).len(),
    decreases k,
{
    if k > 0 {
        lemma_evictions_shrink_stash::<VALUE_SIZE, Z, N, E>(evictor, stash, nodes, leaves, k - 1);
        let (s, n) = path_oram::evict_branches::<VALUE_SIZE, Z, N, E>(
            evictor,
            stash,
            nodes,
            leaves,
            k - 1,
        );
        let leaf = leaves[k - 1];
        lemma_only_vacated_len(
            s,
            evictor.evicted(s, storage::branch_of(n, leaf), leaf).0,
        );
    }
}

impl<
    const VALUE_SIZE: usize,
    const Z: usize,
    const N: usize,
    S: ORAMStorage<VALUE_SIZE, Z>,
    P: PositionMap,
    R: NodeRng,
    E: Evictor<VALUE_SIZE, Z, N>,
> PathORAM<VALUE_SIZE, Z, N, S, P, R, E> {
    /// The array is one: over a sequence of accesses, number `i` of which goes
    /// from state `i` to state `i + 1`, what an access finds is what the last
    /// access to the same key before it left there.
    pub proof fn law_read_gives_last_write(states: Seq<Self>, keys: Seq<u64>, last: int, i: int)
        requires
            states.len() == keys.len() + 1,
            forall|j: int|
                0 <= j < keys.len() ==> (#[trigger] states[j + 1]).stores(&states[j], keys[j]),
            0 <= last < i < keys.len(),
            keys[last] == keys[i],
            forall|j: int| last < j < i ==> #[trigger] keys[j] != keys[i],
        ensures
            states[i]@[keys[i] as int] == states[last + 1]@[keys[i] as int],
    {
        Self::lemma_value_stays(states, keys, last + 1, i, keys[i]);
    }

    /// What the first access to a key finds is what the array had there from
    /// the start.
    pub proof fn law_first_read_gives_initial(states: Seq<Self>, keys: Seq<u64>, i: int)
        requires
            states.len() == keys.len() + 1,
            forall|j: int|
                0 <= j < keys.len() ==> (#[trigger] states[j + 1]).stores(&states[j], keys[j]),
            0 <= i < keys.len(),
            forall|j: int| 0 <= j < i ==> #[trigger] keys[j] != keys[i],
        ensures
            states[i]@[keys[i] as int] == states[0]@[keys[i] as int],
    {
        Self::lemma_value_stays(states, keys, 0, i, keys[i]);
        assert(states[i + 1].stores(&states[i], keys[i]));
    }

    proof fn lemma_value_stays(states: Seq<Self>, keys: Seq<u64>, from: int, to: int, key: u64)
        requires
            states.len() == keys.len() + 1,
            forall|j: int|
                0 <= j < keys.len() ==> (#[trigger] states[j + 1]).stores(&states[j], keys[j]),
            0 <= from <= to <= keys.len(),
            forall|j: int| from <= j < to ==> #[trigger] keys[j] != key,
        ensures
            key < states[from]@.len() ==> states[to]@[key as int] == states[from]@[key as int],
            states[to]@.len() == states[from]@.len(),
        decreases to - from,
    {
        if from < to {
            assert(states[from + 1].stores(&states[from], keys[from]));
            Self::lemma_value_stays(states, keys, from + 1, to, key);
        }
    }

    /// An access changes no bucket but those on the branch that the block was
    /// on, and on the branches that the evictor chose.
    pub proof fn law_access_touches_branches(
        &self,
        before: &Self,
        key: u64,
        old_pos: u64,
        new_pos: u64,
        leaves: Seq<u64>,
        t: int,
    )
        requires
            self.accessed_from(before, key, old_pos, new_pos, leaves),
            0 <= t < before.nodes().len(),
            !tree::is_ancestor(t as nat, old_pos as nat),
            forall|i: int|
                0 <= i < N ==> !tree::is_ancestor(t as nat, #[trigger] leaves[i] as nat),
        ensures
            self.nodes().len() == before.nodes().len(),
            self.nodes()[t] == before.nodes()[t],
    {
        let item = Slot { leaf_num: new_pos, block_num: key, data: self@[key as int] };
        let (s, n) = path_oram::replace_block::<VALUE_SIZE, Z, N, E>(
            self.evictor(),
            before.stash(),
            before.nodes(),
            old_pos,
            item,
        );
        lemma_evictions_touch_branches::<VALUE_SIZE, Z, N, E>(
            self.evictor(),
            s,
            n,
            leaves,
            N as int,
            t,
        );
    }

    /// An access makes the evictor choose once, for the number of the access,
    /// the height of the tree and the number of values. It puts the block into
    /// the stash; then the whole stash is evicted to one branch more than are
    /// chosen: to the one that the block was on, and to the chosen ones in
    /// order.
    pub proof fn law_access_evicts(
        &self,
        before: &Self,
        key: u64,
        old_pos: u64,
        new_pos: u64,
        leaves: Seq<u64>,
    )
        requires
            before.wf(),
            self.accessed_from(before, key, old_pos, new_pos, leaves),
        ensures
            before.evictor().chooses(
                &self.evictor(),
                before.iteration(),
                before.height() as u32,
                before.size() as u64,
                leaves,
            ),
            ({
                let item = Slot { leaf_num: new_pos, block_num: key, data: self@[key as int] };
                let (s, n) = path_oram::stash_block(
                    before.stash(),
                    before.nodes(),
                    old_pos,
                    item,
                );
                (self.stash(), self.nodes()) == path_oram::evict_branches::<VALUE_SIZE, Z, N, E>(
                    self.evictor(),
                    s,
                    n,
                    seq![old_pos] + leaves,
                    N + 1,
                )
            }),
    {
        let item = Slot { leaf_num: new_pos, block_num: key, data: self@[key as int] };
        let (s, n) = path_oram::stash_block(before.stash(), before.nodes(), old_pos, item);
        before.lemma_nodes();
        tree::lemma_height_bounds(old_pos as nat);
        lemma_evict_replaced::<VALUE_SIZE, Z, N, E>(
            self.evictor(),
            before.stash(),
            before.nodes(),
            old_pos,
            item,
        );
        lemma_evict_first::<VALUE_SIZE, Z, N, E>(
            self.evictor(),
            s,
            n,
            old_pos,
            leaves,
            N as int,
        );
    }

    /// After an access there is one block of the number that was accessed; it
    /// travels to its new leaf, which is the one that the position map has for
    /// it. The other blocks, and their leaves, are those that were there
    /// before. Every block still stands above its leaf, and no branch is left
    /// checked out.
    pub proof fn law_access_keeps_blocks(&self, before: &Self, key: u64, new_pos: u64)
        requires
            self.wf(),
            self.positions() == before.positions().insert(key, new_pos),
            self.blocks() == contents::without(before.blocks(), key).insert(
                (Slot { leaf_num: new_pos, block_num: key, data: self@[key as int] }),
            ),
        ensures
            ({
                let item = Slot { leaf_num: new_pos, block_num: key, data: self@[key as int] };
                &&& self.blocks().count(item) == 1
                &&& forall|x: Slot| contents::is_block(self.blocks(), key, x) ==> x == item
                &&& self.positions()[key] == item.leaf_num
            }),
            forall|x: Slot|
                x.block_num != key ==> #[trigger] self.blocks().count(x) == before.blocks().count(
                    x,
                ),
            forall|k: u64|
                k != key ==> (#[trigger] self.positions().contains_key(k)
                    <==> before.positions().contains_key(k)) && self.positions()[k]
                    == before.positions()[k],
            contents::consistent(self.blocks(), self.positions()),
            contents::on_the_way(self.nodes()),
            self.checked_out() == 0,
    {
        let item = Slot { leaf_num: new_pos, block_num: key, data: self@[key as int] };
        self.law_blocks();
        assert(self.blocks().count(item) > 0);
    }

    /// With an evictor that puts nothing into the stash, an access adds at most
    /// one block to the stash.
    pub proof fn law_access_stashes_one(
        &self,
        before: &Self,
        key: u64,
        old_pos: u64,
        new_pos: u64,
        leaves: Seq<u64>,
    )
        requires
            stashes_nothing::<VALUE_SIZE, Z, N, E>(self.evictor()),
            self.accessed_from(before, key, old_pos, new_pos, leaves),
        ensures
            model::live(self.stash()).len() <= model::live(before.stash()).len() + 1,
    {
        let item = Slot { leaf_num: new_pos, block_num: key, data: self@[key as int] };
        let row = model::removed(before.stash(), key);
        let put = model::inserted(row, item);
        let b = packing::branch_removed(storage::branch_of(before.nodes(), old_pos), key);
        model::lemma_first_match(before.stash(), key, 0);
        lemma_only_vacated_len(before.stash(), row);
        if model::has_room(row) {
            model::lemma_live_inserted(row, item);
        }
        lemma_only_vacated_len(put, self.evictor().evicted(put, b, old_pos).0);
        let (s, n) = path_oram::replace_block::<VALUE_SIZE, Z, N, E>(
            self.evictor(),
            before.stash(),
            before.nodes(),
            old_pos,
            item,
        );
        lemma_evictions_shrink_stash::<VALUE_SIZE, Z, N, E>(
            self.evictor(),
            s,
            n,
            leaves,
            N as int,
        );
    }
}

} // verus!
