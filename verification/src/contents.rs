//! The array that the blocks in the tree and in the stash stand for.
use crate::model;
use crate::model::Slot;
use crate::packing;
use crate::storage;
use crate::tree;
use vstd::multiset::*;
use vstd::prelude::*;

verus! {

/// Whether every block travels to the leaf that the position map has for it,
/// and no two blocks have the same number.
pub open spec fn consistent(blocks: Multiset<Slot>, positions: Map<u64, u64>) -> bool {
    &&& forall|x: Slot| #[trigger]
        blocks.count(x) > 0 ==> blocks.count(x) == 1 && positions.contains_key(x.block_num)
            && positions[x.block_num] == x.leaf_num
    &&& forall|x: Slot, y: Slot| #[trigger]
        blocks.count(x) > 0 && #[trigger] blocks.count(y) > 0 && x.block_num == y.block_num ==> x
            == y
}

/// Whether every block stands in a node above the leaf that it travels to.
pub open spec fn on_the_way(nodes: Seq<Seq<Slot>>) -> bool {
    forall|t: int, i: int|
        0 <= t < nodes.len() && 0 <= i < nodes[t].len() && !(#[trigger] nodes[t][i]).vacant()
            ==> tree::is_ancestor(t as nat, nodes[t][i].leaf_num as nat)
}

/// Whether `x` is among the blocks and has the number `key`.
pub open spec fn is_block(blocks: Multiset<Slot>, key: u64, x: Slot) -> bool {
    blocks.count(x) > 0 && x.block_num == key
}

/// The value of block `key`: the data of the block of that number, or zeros if
/// there is none yet.
pub open spec fn content(blocks: Multiset<Slot>, key: u64, value_size: nat) -> Seq<u8> {
    if exists|x: Slot| is_block(blocks, key, x) {
        (choose|x: Slot| is_block(blocks, key, x)).data
    } else {
        model::zeros(value_size)
    }
}

/// The blocks but for block `key`.
pub open spec fn without(blocks: Multiset<Slot>, key: u64) -> Multiset<Slot> {
    blocks.filter(|x: Slot| x.block_num != key)
}

/// The value of a block that is there.
pub proof fn lemma_content_is(
    blocks: Multiset<Slot>,
    positions: Map<u64, u64>,
    x: Slot,
    value_size: nat,
)
    requires
        consistent(blocks, positions),
        blocks.count(x) > 0,
    ensures
        content(blocks, x.block_num, value_size) == x.data,
{
    assert(is_block(blocks, x.block_num, x));
    let y = choose|y: Slot| is_block(blocks, x.block_num, y);
    assert(is_block(blocks, x.block_num, y));
}

/// Exchanging block `key` for another one of the same number changes its value
/// and no other.
pub proof fn lemma_exchange(
    blocks: Multiset<Slot>,
    positions: Map<u64, u64>,
    item: Slot,
    value_size: nat,
)
    requires
        consistent(blocks, positions),
    ensures
        ({
            let after = without(blocks, item.block_num).insert(item);
            &&& consistent(after, positions.insert(item.block_num, item.leaf_num))
            &&& content(after, item.block_num, value_size) == item.data
            &&& forall|k: u64|
                k != item.block_num ==> #[trigger] content(after, k, value_size) == content(
                    blocks,
                    k,
                    value_size,
                )
        }),
{
    let key = item.block_num;
    let after = without(blocks, key).insert(item);
    let positions2 = positions.insert(key, item.leaf_num);
    assert forall|x: Slot| #[trigger] after.count(x) == (if x == item {
        1nat
    } else if x.block_num == key {
        0
    } else {
        blocks.count(x)
    }) by {}
    assert(consistent(after, positions2));
    lemma_content_is(after, positions2, item, value_size);
    assert forall|k: u64| k != key implies #[trigger] content(after, k, value_size) == content(
        blocks,
        k,
        value_size,
    ) by {
        if exists|x: Slot| is_block(blocks, k, x) {
            let x = choose|x: Slot| is_block(blocks, k, x);
            assert(is_block(after, k, x));
            lemma_content_is(after, positions2, x, value_size);
            lemma_content_is(blocks, positions, x, value_size);
        } else {
            assert forall|x: Slot| !is_block(after, k, x) by {
                assert(!is_block(blocks, k, x));
            }
        }
    }
}

/// Taking block `key` out of a row of slots that holds it at most once takes
/// it from its blocks.
pub proof fn lemma_removed(s: Seq<Slot>, key: u64, x: Slot)
    requires
        forall|v: Slot| is_block(model::live(s), key, v) ==> v == x && model::live(s).count(v) == 1,
    ensures
        model::live(model::removed(s, key)) == without(model::live(s), key),
        is_block(model::live(s), key, x) ==> forall|d: Slot| model::found(s, key, d) == x,
        !is_block(model::live(s), key, x) ==> forall|d: Slot| model::found(s, key, d) == d,
{
    let i = model::first_match(s, key, 0);
    let t = model::removed(s, key);
    model::lemma_first_match(s, key, 0);
    model::lemma_live_removed(s, key);
    if i < s.len() {
        assert(s.contains(s[i]));
        model::lemma_live_contains(s, s[i]);
        assert(is_block(model::live(s), key, s[i]));
        assert forall|v: Slot| model::live(t).count(v) == without(model::live(s), key).count(v) by {
            assert(model::live(t).add(Multiset::singleton(s[i])).count(v) == model::live(s).count(
                v,
            ));
            if v.block_num == key && v != s[i] {
                assert(!is_block(model::live(s), key, v));
            }
        }
    } else {
        assert forall|v: Slot| !is_block(model::live(s), key, v) by {
            model::lemma_live_contains(s, v);
            if is_block(model::live(s), key, v) {
                let j = choose|j: int| 0 <= j < s.len() && s[j] == v;
                assert(s[j].holds(key));
            }
        }
        assert forall|v: Slot| model::live(t).count(v) == without(model::live(s), key).count(v) by {
            assert(!is_block(model::live(s), key, v));
        }
    }
    assert(model::live(t) =~= without(model::live(s), key));
}

/// Taking block `key` out of a branch that holds it at most once takes it from
/// its blocks.
pub proof fn lemma_branch_removed(b: Seq<Seq<Slot>>, key: u64, x: Slot)
    requires
        forall|v: Slot|
            is_block(model::live_in(b), key, v) ==> v == x && model::live_in(b).count(v) == 1,
    ensures
        model::live_in(packing::branch_removed(b, key)) == without(model::live_in(b), key),
        is_block(model::live_in(b), key, x) ==> forall|d: Slot|
            packing::branch_found(b, key, d) == x,
        !is_block(model::live_in(b), key, x) ==> forall|d: Slot|
            packing::branch_found(b, key, d) == d,
{
    let c = packing::branch_removed(b, key);
    let j = packing::first_holder(b, key, 0);
    packing::lemma_first_holder(b, key, 0);
    if j < b.len() {
        let y = b[j][model::first_match(b[j], key, 0)];
        model::lemma_first_match(b[j], key, 0);
        model::lemma_live_removed(b[j], key);
        model::lemma_live_contains(b[j], y);
        model::lemma_live_in_contains(b, y);
        assert(is_block(model::live_in(b), key, y));
        model::lemma_live_in_update(b, j, model::removed(b[j], key));
        assert forall|v: Slot| model::live_in(c).count(v) == without(
            model::live_in(b),
            key,
        ).count(v) by {
            assert(model::live_in(c).add(model::live(b[j])).count(v) == model::live_in(b).add(
                model::live(model::removed(b[j], key)),
            ).count(v));
            assert(model::live(model::removed(b[j], key)).add(Multiset::singleton(y)).count(v)
                == model::live(b[j]).count(v));
            if v.block_num == key && v != y {
                assert(!is_block(model::live_in(b), key, v));
            }
        }
    } else {
        assert forall|v: Slot| !is_block(model::live_in(b), key, v) by {
            model::lemma_live_in_contains(b, v);
            if is_block(model::live_in(b), key, v) {
                let m = choose|m: int|
                    0 <= m < b.len() && model::live(#[trigger] b[m]).count(v) > 0;
                model::lemma_live_contains(b[m], v);
                let i = choose|i: int| 0 <= i < b[m].len() && b[m][i] == v;
                model::lemma_first_match(b[m], key, 0);
                assert(b[m][i].holds(key));
                assert(packing::bucket_holds(b[m], key));
            }
        }
        assert forall|v: Slot| model::live_in(c).count(v) == without(
            model::live_in(b),
            key,
        ).count(v) by {
            assert(!is_block(model::live_in(b), key, v));
        }
    }
    assert(model::live_in(c) =~= without(model::live_in(b), key));
}

/// Putting a branch back exchanges the blocks that were on it.
pub proof fn lemma_with_branch(nodes: Seq<Seq<Slot>>, leaf: u64, b: Seq<Seq<Slot>>)
    requires
        0 < leaf < nodes.len(),
        b.len() == tree::height(leaf as nat) + 1,
    ensures
        model::live_in(storage::with_branch(nodes, leaf, b)).add(
            model::live_in(storage::branch_of(nodes, leaf)),
        ) == model::live_in(nodes).add(model::live_in(b)),
{
    lemma_with_part(nodes, leaf, b, b.len() as int);
    assert forall|t: int| 0 <= t < nodes.len() implies #[trigger] storage::with_branch(
        nodes,
        leaf,
        b,
    )[t] == with_part(nodes, leaf, b, b.len() as int)[t] by {}
    assert(storage::with_branch(nodes, leaf, b) =~= with_part(nodes, leaf, b, b.len() as int));
    assert(b.take(b.len() as int) =~= b);
    let a = storage::branch_of(nodes, leaf);
    assert(a.take(b.len() as int) =~= a);
}

/// The nodes once the `k` lowest ones of the branch of `leaf` are replaced.
spec fn with_part(nodes: Seq<Seq<Slot>>, leaf: u64, b: Seq<Seq<Slot>>, k: int) -> Seq<Seq<Slot>> {
    Seq::new(
        nodes.len(),
        |t: int|
            if tree::is_ancestor(t as nat, leaf as nat) && tree::height(leaf as nat)
                - tree::height(t as nat) < k {
                b[tree::height(leaf as nat) - tree::height(t as nat)]
            } else {
                nodes[t]
            },
    )
}

proof fn lemma_with_part(nodes: Seq<Seq<Slot>>, leaf: u64, b: Seq<Seq<Slot>>, k: int)
    requires
        0 < leaf < nodes.len(),
        b.len() == tree::height(leaf as nat) + 1,
        0 <= k <= b.len(),
    ensures
        model::live_in(with_part(nodes, leaf, b, k)).add(
            model::live_in(storage::branch_of(nodes, leaf).take(k)),
        ) == model::live_in(nodes).add(model::live_in(b.take(k))),
    decreases k,
{
    let h = tree::height(leaf as nat);
    let a = storage::branch_of(nodes, leaf);
    let now = with_part(nodes, leaf, b, k);
    if k == 0 {
        assert forall|t: int| 0 <= t < nodes.len() implies now[t] == nodes[t] by {
            if tree::is_ancestor(t as nat, leaf as nat) {
                tree::lemma_ancestor_bounds(t as nat, leaf as nat);
            }
        }
        assert(now =~= nodes);
        assert(a.take(0) =~= b.take(0));
    } else {
        let before = with_part(nodes, leaf, b, k - 1);
        let t = tree::ancestor(leaf as nat, (k - 1) as nat) as int;
        tree::lemma_ancestor_height(leaf as nat, (k - 1) as nat);
        tree::lemma_ancestor_bounds(t as nat, leaf as nat);
        assert(before[t] == nodes[t]);
        assert(a[k - 1] == nodes[t]);
        assert forall|u: int| 0 <= u < nodes.len() implies now[u]
            == before.update(t, b[k - 1])[u] by {
            if u >= 1 {
                tree::lemma_is_ancestor_at(u as nat, leaf as nat);
            }
        }
        assert(now =~= before.update(t, b[k - 1]));
        lemma_with_part(nodes, leaf, b, k - 1);
        model::lemma_live_in_update(before, t, b[k - 1]);
        assert(a.take(k).drop_last() =~= a.take(k - 1));
        assert(b.take(k).drop_last() =~= b.take(k - 1));
        assert forall|v: Slot|
            model::live_in(now).count(v) + model::live_in(a.take(k)).count(v) == model::live_in(
                nodes,
            ).count(v) + model::live_in(b.take(k)).count(v) by {
            assert(model::live_in(now).add(model::live(before[t])).count(v) == model::live_in(
                before,
            ).add(model::live(b[k - 1])).count(v));
            assert(model::live_in(before).add(model::live_in(a.take(k - 1))).count(v)
                == model::live_in(nodes).add(model::live_in(b.take(k - 1))).count(v));
            assert(a.take(k).last() == a[k - 1]);
            assert(b.take(k).last() == b[k - 1]);
        }
    }
    assert(model::live_in(now).add(model::live_in(a.take(k))) =~= model::live_in(nodes).add(
        model::live_in(b.take(k)),
    ));
}

/// In a tree whose blocks are on their way, every block of a branch stands
/// where it may.
pub proof fn lemma_branch_legal(nodes: Seq<Seq<Slot>>, leaf: u64)
    requires
        on_the_way(nodes),
        0 < leaf < nodes.len(),
    ensures
        packing::legal(storage::branch_of(nodes, leaf), leaf),
{
    let b = storage::branch_of(nodes, leaf);
    assert forall|j: int, i: int|
        0 <= j < b.len() && 0 <= i < b[j].len() && !(#[trigger] b[j][i]).vacant() implies j
        >= packing::legal_index(b[j][i].leaf_num, leaf, b.len()) by {
        let t = tree::ancestor(leaf as nat, j as nat) as int;
        tree::lemma_ancestor_height(leaf as nat, j as nat);
        tree::lemma_ancestor_bounds(t as nat, leaf as nat);
        assert(b[j] == nodes[t]);
        assert(!nodes[t][i].vacant());
        tree::lemma_ancestor_of_query(leaf as nat, b[j][i].leaf_num as nat, j as nat);
    }
}

/// Putting back a branch whose blocks stand where they may keeps the blocks of
/// the tree on their way.
pub proof fn lemma_with_branch_on_the_way(nodes: Seq<Seq<Slot>>, leaf: u64, b: Seq<Seq<Slot>>)
    requires
        on_the_way(nodes),
        0 < leaf < nodes.len(),
        b.len() == tree::height(leaf as nat) + 1,
        packing::legal(b, leaf),
    ensures
        on_the_way(storage::with_branch(nodes, leaf, b)),
{
    let after = storage::with_branch(nodes, leaf, b);
    assert forall|t: int, i: int|
        0 <= t < after.len() && 0 <= i < after[t].len() && !(
        #[trigger] after[t][i]).vacant() implies tree::is_ancestor(
        t as nat,
        after[t][i].leaf_num as nat,
    ) by {
        if tree::is_ancestor(t as nat, leaf as nat) {
            tree::lemma_is_ancestor_at(t as nat, leaf as nat);
            let j = tree::height(leaf as nat) - tree::height(t as nat);
            assert(after[t] == b[j]);
            assert(!b[j][i].vacant());
            tree::lemma_ancestor_of_query(leaf as nat, b[j][i].leaf_num as nat, j as nat);
        } else {
            assert(after[t] == nodes[t]);
            assert(!nodes[t][i].vacant());
        }
    }
}

/// A block on its way to `leaf` stands on the branch of `leaf`, if it stands
/// in the tree.
pub proof fn lemma_on_branch(nodes: Seq<Seq<Slot>>, leaf: u64, x: Slot)
    requires
        on_the_way(nodes),
        0 < leaf < nodes.len(),
        x.leaf_num == leaf,
        model::live_in(nodes).count(x) > 0,
    ensures
        model::live_in(storage::branch_of(nodes, leaf)).count(x) > 0,
{
    let b = storage::branch_of(nodes, leaf);
    model::lemma_live_in_contains(nodes, x);
    let t = choose|t: int| 0 <= t < nodes.len() && model::live(#[trigger] nodes[t]).count(x) > 0;
    model::lemma_live_contains(nodes[t], x);
    let i = choose|i: int| 0 <= i < nodes[t].len() && nodes[t][i] == x;
    assert(!nodes[t][i].vacant());
    assert(tree::is_ancestor(t as nat, leaf as nat));
    tree::lemma_is_ancestor_at(t as nat, leaf as nat);
    let j = tree::height(leaf as nat) - tree::height(t as nat);
    assert(b[j] == nodes[t]);
    model::lemma_live_in_contains(b, x);
}

/// A branch holds no block that its tree does not hold.
pub proof fn lemma_branch_within(nodes: Seq<Seq<Slot>>, leaf: u64, x: Slot)
    requires
        0 < leaf < nodes.len(),
    ensures
        model::live_in(storage::branch_of(nodes, leaf)).count(x) <= model::live_in(nodes).count(x),
{
    let b = storage::branch_of(nodes, leaf);
    let none = Seq::new(b.len(), |j: int| Seq::<Slot>::empty());
    lemma_with_branch(nodes, leaf, none);
    assert forall|j: int| 0 <= j < none.len() implies model::live(#[trigger] none[j])
        == Multiset::<Slot>::empty() by {}
    lemma_no_blocks(none);
    assert(model::live_in(storage::with_branch(nodes, leaf, none)).add(model::live_in(b)).count(x)
        == model::live_in(nodes).add(model::live_in(none)).count(x));
}

/// Buckets without blocks hold none together.
pub proof fn lemma_no_blocks(b: Seq<Seq<Slot>>)
    requires
        forall|j: int|
            0 <= j < b.len() ==> model::live(#[trigger] b[j]) == Multiset::<Slot>::empty(),
    ensures
        model::live_in(b) == Multiset::<Slot>::empty(),
    decreases b.len(),
{
    if b.len() > 0 {
        assert forall|j: int| 0 <= j < b.drop_last().len() implies model::live(
            #[trigger] b.drop_last()[j],
        ) == Multiset::<Slot>::empty() by {
            assert(b.drop_last()[j] == b[j]);
        }
        lemma_no_blocks(b.drop_last());
        assert(b.last() == b[b.len() - 1]);
    }
    assert(model::live_in(b) =~= Multiset::<Slot>::empty());
}

/// Vacant slots hold no block.
pub proof fn lemma_vacant(s: Seq<Slot>)
    requires
        forall|i: int| 0 <= i < s.len() ==> (#[trigger] s[i]).vacant(),
    ensures
        model::live(s) == Multiset::<Slot>::empty(),
{
    assert forall|x: Slot| model::live(s).count(x) == 0 by {
        model::lemma_live_contains(s, x);
    }
    assert(model::live(s) =~= Multiset::<Slot>::empty());
}

/// There is room for a block where a slot is vacant or holds that very block.
pub proof fn lemma_has_room_for(stash: Seq<Slot>, key: u64)
    ensures
        model::has_room(model::removed(stash, key)) <==> exists|i: int|
            0 <= i < stash.len() && ((#[trigger] stash[i]).vacant() || stash[i].block_num == key),
{
    let t = model::removed(stash, key);
    model::lemma_first_match(stash, key, 0);
    model::lemma_first_vacant(t, 0);
    if model::has_room(t) {
        let i = model::first_vacant(t, 0);
        assert(stash[i].vacant() || stash[i].block_num == key);
    }
    if exists|i: int|
        0 <= i < stash.len() && ((#[trigger] stash[i]).vacant() || stash[i].block_num == key) {
        let i = choose|i: int|
            0 <= i < stash.len() && ((#[trigger] stash[i]).vacant() || stash[i].block_num == key);
        if stash[i].vacant() {
            assert(t[i].vacant());
        } else {
            assert(stash[i].holds(key));
            assert(t[model::first_match(stash, key, 0)].vacant());
        }
    }
}

/// At most one block has the number `key`, and it is in the stash or on the
/// branch that the position map has for it.
proof fn lemma_key_blocks(
    stash: Seq<Slot>,
    nodes: Seq<Seq<Slot>>,
    positions: Map<u64, u64>,
    key: u64,
    leaf: u64,
) -> (x: Slot)
    requires
        consistent(model::live(stash).add(model::live_in(nodes)), positions),
        on_the_way(nodes),
        0 < leaf < nodes.len(),
        positions.contains_key(key) ==> positions[key] == leaf,
    ensures
        ({
            let m = model::live(stash).add(model::live_in(nodes));
            let b = model::live_in(storage::branch_of(nodes, leaf));
            &&& forall|v: Slot|
                is_block(model::live(stash), key, v) ==> v == x && model::live(stash).count(v) == 1
            &&& forall|v: Slot| is_block(b, key, v) ==> v == x && b.count(v) == 1
            &&& is_block(m, key, x) <==> (is_block(model::live(stash), key, x) || is_block(
                b,
                key,
                x,
            ))
            &&& forall|v: Slot| is_block(m, key, v) ==> v == x
            &&& forall|v: Slot|
                v.block_num == key ==> #[trigger] model::live_in(nodes).count(v) == b.count(v)
        }),
{
    let m = model::live(stash).add(model::live_in(nodes));
    let b = model::live_in(storage::branch_of(nodes, leaf));
    let x = choose|x: Slot| is_block(m, key, x);
    assert forall|v: Slot| is_block(m, key, v) implies v == x && m.count(v) == 1 by {
        assert(is_block(m, key, x));
        assert(m.count(v) > 0 && m.count(x) > 0);
    }
    assert forall|v: Slot| is_block(model::live(stash), key, v) implies v == x && model::live(
        stash,
    ).count(v) == 1 by {
        assert(is_block(m, key, v));
    }
    assert forall|v: Slot| v.block_num == key implies #[trigger] model::live_in(nodes).count(v)
        == b.count(v) by {
        lemma_branch_within(nodes, leaf, v);
        if model::live_in(nodes).count(v) > 0 {
            assert(is_block(m, key, v));
            assert(m.count(v) > 0);
            lemma_on_branch(nodes, leaf, v);
        }
    }
    assert forall|v: Slot| is_block(b, key, v) implies v == x && b.count(v) == 1 by {
        assert(model::live_in(nodes).count(v) == b.count(v));
        assert(is_block(m, key, v));
    }
    assert(x.block_num == key ==> model::live_in(nodes).count(x) == b.count(x));
    x
}

/// Looking through the branch that the position map has for block `key`, and
/// through the stash if it is not there, finds the value of the block. If it is
/// on the branch, it is not in the stash.
pub proof fn lemma_find(
    stash: Seq<Slot>,
    nodes: Seq<Seq<Slot>>,
    positions: Map<u64, u64>,
    key: u64,
    leaf: u64,
    value_size: nat,
)
    requires
        consistent(model::live(stash).add(model::live_in(nodes)), positions),
        on_the_way(nodes),
        0 < leaf < nodes.len(),
        positions.contains_key(key) ==> positions[key] == leaf,
    ensures
        ({
            let on_branch = packing::branch_found(
                storage::branch_of(nodes, leaf),
                key,
                Slot::zero(value_size),
            );
            let item = if on_branch.vacant() {
                model::found(stash, key, on_branch)
            } else {
                on_branch
            };
            &&& item.data == content(
                model::live(stash).add(model::live_in(nodes)),
                key,
                value_size,
            )
            &&& !on_branch.vacant() ==> model::removed(stash, key) == stash
        }),
{
    let m = model::live(stash).add(model::live_in(nodes));
    let b = storage::branch_of(nodes, leaf);
    let x = lemma_key_blocks(stash, nodes, positions, key, leaf);
    lemma_branch_removed(b, key, x);
    lemma_removed(stash, key, x);
    let on_branch = packing::branch_found(b, key, Slot::zero(value_size));
    model::lemma_first_match(stash, key, 0);
    let i = model::first_match(stash, key, 0);
    if i < stash.len() {
        model::lemma_live_contains(stash, stash[i]);
        assert(is_block(model::live(stash), key, stash[i]));
    }
    if is_block(model::live_in(b), key, x) {
        lemma_branch_within(nodes, leaf, x);
        assert(m.count(x) == 1);
        model::lemma_live_in_contains(b, x);
        let j = choose|j: int| 0 <= j < b.len() && model::live(#[trigger] b[j]).count(x) > 0;
        model::lemma_live_contains(b[j], x);
    }
    if is_block(m, key, x) {
        lemma_content_is(m, positions, x, value_size);
        model::lemma_live_contains(stash, x);
    } else {
        assert forall|v: Slot| !is_block(m, key, v) by {}
    }
}

/// Replacing block `key` in the stash, and evicting to the branch that it was
/// on, replaces it among the blocks and keeps them on their way.
pub proof fn lemma_replace(
    stash: Seq<Slot>,
    nodes: Seq<Seq<Slot>>,
    positions: Map<u64, u64>,
    leaf: u64,
    item: Slot,
    new_stash: Seq<Slot>,
    new_branch: Seq<Seq<Slot>>,
)
    requires
        consistent(model::live(stash).add(model::live_in(nodes)), positions),
        on_the_way(nodes),
        0 < leaf < nodes.len(),
        positions.contains_key(item.block_num) ==> positions[item.block_num] == leaf,
        !item.vacant(),
        model::has_room(model::removed(stash, item.block_num)),
        new_branch.len() == tree::height(leaf as nat) + 1,
        ({
            let branch = packing::branch_removed(
                storage::branch_of(nodes, leaf),
                item.block_num,
            );
            &&& model::live(new_stash).add(model::live_in(new_branch)) == model::live(
                model::inserted(model::removed(stash, item.block_num), item),
            ).add(model::live_in(branch))
            &&& packing::legal(branch, leaf) ==> packing::legal(new_branch, leaf)
        }),
    ensures
        model::live(new_stash).add(
            model::live_in(storage::with_branch(nodes, leaf, new_branch)),
        ) == without(model::live(stash).add(model::live_in(nodes)), item.block_num).insert(item),
        on_the_way(storage::with_branch(nodes, leaf, new_branch)),
{
    let key = item.block_num;
    let m = model::live(stash).add(model::live_in(nodes));
    let b = storage::branch_of(nodes, leaf);
    let branch = packing::branch_removed(b, key);
    let row = model::removed(stash, key);
    let x = lemma_key_blocks(stash, nodes, positions, key, leaf);
    lemma_branch_removed(b, key, x);
    lemma_removed(stash, key, x);
    model::lemma_live_inserted(row, item);
    lemma_with_branch(nodes, leaf, new_branch);
    lemma_branch_legal(nodes, leaf);
    assert(packing::legal(branch, leaf)) by {
        assert forall|j: int, i: int|
            0 <= j < branch.len() && 0 <= i < branch[j].len() && !(
            #[trigger] branch[j][i]).vacant() implies j >= packing::legal_index(
            branch[j][i].leaf_num,
            leaf,
            branch.len(),
        ) by {
            packing::lemma_first_holder(b, key, 0);
            model::lemma_first_match(b[j], key, 0);
            assert(branch[j][i] == b[j][i]);
        }
    }
    lemma_with_branch_on_the_way(nodes, leaf, new_branch);
    let after = storage::with_branch(nodes, leaf, new_branch);
    assert forall|v: Slot|
        model::live(new_stash).count(v) + model::live_in(after).count(v) == without(
            m,
            key,
        ).insert(item).count(v) by {
        assert(model::live_in(after).add(model::live_in(b)).count(v) == model::live_in(nodes).add(
            model::live_in(new_branch),
        ).count(v));
        assert(model::live(new_stash).add(model::live_in(new_branch)).count(v) == model::live(
            model::inserted(row, item),
        ).add(model::live_in(branch)).count(v));
        assert(model::live(model::inserted(row, item)).count(v) == without(
            model::live(stash),
            key,
        ).count(v) + model::block_of(item).count(v));
        assert(model::live_in(branch).count(v) == without(model::live_in(b), key).count(v));
        if v.block_num == key {
            assert(model::live_in(nodes).count(v) == model::live_in(b).count(v));
        }
    }
    assert(model::live(new_stash).add(model::live_in(after)) =~= without(m, key).insert(item));
}

/// Evicting to a branch keeps the blocks, and keeps them on their way.
pub proof fn lemma_evict(
    stash: Seq<Slot>,
    nodes: Seq<Seq<Slot>>,
    leaf: u64,
    new_stash: Seq<Slot>,
    new_branch: Seq<Seq<Slot>>,
)
    requires
        on_the_way(nodes),
        0 < leaf < nodes.len(),
        new_branch.len() == tree::height(leaf as nat) + 1,
        model::live(new_stash).add(model::live_in(new_branch)) == model::live(stash).add(
            model::live_in(storage::branch_of(nodes, leaf)),
        ),
        packing::legal(storage::branch_of(nodes, leaf), leaf) ==> packing::legal(new_branch, leaf),
    ensures
        model::live(new_stash).add(
            model::live_in(storage::with_branch(nodes, leaf, new_branch)),
        ) == model::live(stash).add(model::live_in(nodes)),
        on_the_way(storage::with_branch(nodes, leaf, new_branch)),
{
    let b = storage::branch_of(nodes, leaf);
    let after = storage::with_branch(nodes, leaf, new_branch);
    lemma_with_branch(nodes, leaf, new_branch);
    lemma_branch_legal(nodes, leaf);
    lemma_with_branch_on_the_way(nodes, leaf, new_branch);
    assert forall|v: Slot|
        model::live(new_stash).count(v) + model::live_in(after).count(v) == model::live(
            stash,
        ).count(v) + model::live_in(nodes).count(v) by {
        assert(model::live_in(after).add(model::live_in(b)).count(v) == model::live_in(nodes).add(
            model::live_in(new_branch),
        ).count(v));
        assert(model::live(new_stash).add(model::live_in(new_branch)).count(v) == model::live(
            stash,
        ).add(model::live_in(b)).count(v));
    }
    assert(model::live(new_stash).add(model::live_in(after)) =~= model::live(stash).add(
        model::live_in(nodes),
    ));
}

} // verus!
