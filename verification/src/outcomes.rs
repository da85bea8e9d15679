//! What the operations do, said in terms of nodes, slots and bits alone.
//!
//! Node `node / 2^j` is the one that lies `j` steps above `node`. A slot is
//! vacant if its leaf is 0. The laws here use nothing else to say where blocks
//! end up.
use crate::circuit;
use crate::circuit::Source;
use crate::contents;
use crate::evictor;
use crate::evictor::Evictor;
use crate::laws;
use crate::model;
use crate::model::Slot;
use crate::oblivious::Meta;
use crate::packing;
use crate::path_oram;
use crate::path_oram::PathORAM;
use crate::position_map::{PositionMap, PositionWrite};
use crate::rng::{Draw, NodeRng};
use crate::storage;
use crate::storage::{ORAMStorage, StorageCall};
use crate::tree;
use vstd::arithmetic::div_mod::*;
use vstd::arithmetic::power2::*;
use vstd::prelude::*;

verus! {

// Nodes.

/// Going up `j` times from a node is dropping the `j` last bits of its index.
pub proof fn law_ancestor_drops_bits(node: nat, j: nat)
    ensures
        tree::ancestor(node, j) == node / pow2(j),
    decreases j,
{
    lemma2_to64();
    if j > 0 {
        law_ancestor_drops_bits(node / 2, (j - 1) as nat);
        lemma_pow2_unfold(j);
        lemma_pow2_pos((j - 1) as nat);
        lemma_div_denominator(node as int, 2, pow2((j - 1) as nat) as int);
    } else {
        lemma_div_basics_2(node as int);
    }
}

/// A node lies above another if it is what is left of the other's index once
/// some of its last bits are dropped.
pub proof fn law_is_ancestor_drops_bits(top: nat, node: nat)
    requires
        node >= 1,
    ensures
        tree::is_ancestor(top, node) <==> top >= 1 && exists|e: nat|
            node / #[trigger] pow2(e) == top,
{
    if tree::is_ancestor(top, node) {
        tree::lemma_is_ancestor_at(top, node);
        let e = (tree::height(node) - tree::height(top)) as nat;
        law_ancestor_drops_bits(node, e);
        assert(node / pow2(e) == top);
    }
    if top >= 1 && exists|e: nat| node / #[trigger] pow2(e) == top {
        let e = choose|e: nat| node / #[trigger] pow2(e) == top;
        law_ancestor_drops_bits(node, e);
        tree::lemma_height_bounds(node);
        if e > tree::height(node) {
            if e > tree::height(node) + 1 {
                lemma_pow2_strictly_increases(tree::height(node) + 1, e);
            }
            lemma_basic_div(node as int, pow2(e) as int);
        }
        tree::lemma_ancestor_height(node, e);
    }
}

/// The nodes of height `h` are the numbers of `h + 1` bits.
pub proof fn law_leaves_are_numbers(node: u64, h: nat)
    ensures
        tree::is_leaf(node, h) <==> pow2(h) <= node < pow2(h + 1),
{
    if node != 0 {
        tree::lemma_height_bounds(node as nat);
    } else {
        lemma_pow2_pos(h);
    }
    if pow2(h) <= node < pow2(h + 1) {
        tree::lemma_height_from_bounds(node as nat, h);
    }
}

/// The bits of a number, in the opposite order: bit `i` of the
/// result is bit `bits - 1 - i` of the number, and there are no more bits.
pub proof fn law_bit_reverse_moves_bits(x: nat, bits: nat, i: nat)
    requires
        i < bits,
    ensures
        (tree::reversed_bits(x, bits) / pow2(i)) % 2 == (x / pow2((bits - 1 - i) as nat)) % 2,
        tree::reversed_bits(x, bits) < pow2(bits),
    decreases bits,
{
    let n = (bits - 1) as nat;
    let top = pow2(n);
    let rest = tree::reversed_bits(x / 2, n);
    let all = tree::reversed_bits(x, bits);
    tree::lemma_reversed_bits_bound(x, bits);
    tree::lemma_reversed_bits_bound(x / 2, n);
    lemma2_to64();
    lemma_pow2_pos(n);
    if i == n {
        assert(x / pow2(0) == x) by {
            lemma_div_basics_2(x as int);
        }
        if x % 2 == 0 {
            lemma_basic_div(rest as int, top as int);
        } else {
            assert(all == 1 * top + rest);
            lemma_fundamental_div_mod_converse(all as int, top as int, 1, rest as int);
        }
    } else {
        law_bit_reverse_moves_bits(x / 2, n, i);
        let e = (n - 1 - i) as nat;
        lemma_pow2_pos(e);
        lemma_pow2_unfold(e + 1);
        lemma_div_denominator(x as int, 2, pow2(e) as int);
        assert(x / pow2((bits - 1 - i) as nat) == (x / 2) / pow2(e));
        // The top bit is worth an even number of times what bit `i` is worth.
        if x % 2 != 0 {
            let p = pow2(i);
            let k = pow2((n - i - 1) as nat);
            lemma_pow2_pos(i);
            lemma_pow2_adds((n - i) as nat, i);
            lemma_pow2_unfold((n - i) as nat);
            assert(all == rest + (2 * k) * p);
            lemma_fundamental_div_mod(rest as int, p as int);
            let q = rest / p;
            let r = rest % p;
            assert(all == (q + 2 * k) * p + r) by (nonlinear_arith)
                requires
                    all == rest + (2 * k) * p,
                    rest == p * q + r,
            ;
            lemma_fundamental_div_mod_converse(all as int, p as int, (q + 2 * k) as int, r as int);
            assert((q + 2 * k) % 2 == q % 2);
        }
    }
}

/// The leaf of a turn: its first bit is a one, and those after it are the last
/// bits of the turn, in the opposite order.
pub proof fn law_leaf_at_turn_bits(turn: nat, tree_height: nat, i: nat)
    requires
        i < tree_height,
    ensures
        pow2(tree_height) <= evictor::leaf_at_turn(turn, tree_height) < pow2(tree_height + 1),
        ((evictor::leaf_at_turn(turn, tree_height) - pow2(tree_height)) as nat / pow2(i)) % 2 == (
        turn / pow2((tree_height - 1 - i) as nat)) % 2,
{
    let p = pow2(tree_height);
    evictor::lemma_leaf_at_turn(turn, tree_height);
    lemma_pow2_pos(tree_height);
    law_bit_reverse_moves_bits(turn % p, tree_height, i);
    // Dropping the bits of a turn above the height changes none of the others.
    let e = (tree_height - 1 - i) as nat;
    let q = pow2(e);
    let k = pow2(i);
    lemma_pow2_pos(e);
    lemma_pow2_pos(i);
    lemma_pow2_adds(e, i);
    lemma_pow2_unfold(tree_height);
    assert(p == (2 * k) * q) by (nonlinear_arith)
        requires
            p == 2 * (q * k),
    ;
    lemma_fundamental_div_mod(turn as int, p as int);
    let d = turn / p;
    let y = turn % p;
    lemma_fundamental_div_mod(y as int, q as int);
    let a = y / q;
    let r = y % q;
    assert(turn == (2 * (k * d) + a) * q + r) by (nonlinear_arith)
        requires
            turn == p * d + y,
            p == (2 * k) * q,
            y == q * a + r,
    ;
    lemma_fundamental_div_mod_converse(turn as int, q as int, (2 * (k * d) + a) as int, r as int);
    assert((2 * (k * d) + a) % 2 == a % 2);
}

// Slots.

/// The slots of a bucket are made of its metadata and its values, one by one.
pub proof fn law_slots_are_meta_and_data<const VALUE_SIZE: usize, const Z: usize>(
    data: Seq<[[u8; VALUE_SIZE]; Z]>,
    meta: Seq<[Meta; Z]>,
    j: int,
    i: int,
)
    requires
        0 <= j < meta.len(),
        0 <= i < Z,
    ensures
        model::buckets(data, meta).len() == meta.len(),
        model::buckets(data, meta)[j] == model::slots(data[j]@, meta[j]@),
        model::slots(data[j]@, meta[j]@).len() == Z,
        model::slots(data[j]@, meta[j]@)[i] == model::slot(data[j]@[i], meta[j]@[i]),
        model::slot(data[j]@[i], meta[j]@[i]) == (Slot {
            leaf_num: meta[j]@[i].leaf_num,
            block_num: meta[j]@[i].block_num,
            data: data[j]@[i]@,
        }),
{
}

/// Whether slot `at` is vacant and no slot before it is.
pub open spec fn is_first_vacant(s: Seq<Slot>, at: int) -> bool {
    &&& 0 <= at < s.len()
    &&& s[at].leaf_num == 0
    &&& forall|i: int| 0 <= i < at ==> (#[trigger] s[i]).leaf_num != 0
}

/// Whether some slot is vacant.
pub open spec fn has_vacancy(s: Seq<Slot>) -> bool {
    exists|i: int| 0 <= i < s.len() && (#[trigger] s[i]).leaf_num == 0
}

/// Whether slot `at` holds block `query` and no slot before it does.
pub open spec fn is_first_holder(s: Seq<Slot>, query: u64, at: int) -> bool {
    &&& 0 <= at < s.len()
    &&& s[at].leaf_num != 0
    &&& s[at].block_num == query
    &&& forall|i: int|
        0 <= i < at ==> (#[trigger] s[i]).leaf_num == 0 || s[i].block_num != query
}

/// Whether some slot holds block `query`.
pub open spec fn is_held(s: Seq<Slot>, query: u64) -> bool {
    exists|i: int|
        0 <= i < s.len() && (#[trigger] s[i]).leaf_num != 0 && s[i].block_num == query
}

/// The slot without its block: its leaf is 0, the rest stays.
pub open spec fn emptied(x: Slot) -> Slot {
    Slot { leaf_num: 0, block_num: x.block_num, data: x.data }
}

proof fn lemma_has_vacancy(s: Seq<Slot>)
    ensures
        model::has_room(s) <==> has_vacancy(s),
        has_vacancy(s) ==> is_first_vacant(s, model::first_vacant(s, 0)),
        forall|at: int| is_first_vacant(s, at) ==> at == model::first_vacant(s, 0),
{
    model::lemma_first_vacant(s, 0);
    assert forall|at: int| is_first_vacant(s, at) implies at == model::first_vacant(s, 0) by {
        model::lemma_first_vacant_is(s, 0, at);
    }
}

/// A block is put into the first vacant slot, and there is room if and only if
/// a slot is vacant; nothing else changes.
pub proof fn law_insert_fills_first_vacancy(s: Seq<Slot>, item: Slot)
    ensures
        model::has_room(s) <==> has_vacancy(s),
        forall|at: int| #[trigger]
            is_first_vacant(s, at) ==> model::inserted(s, item) == s.update(at, item),
        !has_vacancy(s) ==> model::inserted(s, item) == s,
{
    lemma_has_vacancy(s);
}

/// A block is taken out of the first slot that holds it, and that slot is what
/// is found; nothing else changes. If no slot holds the block, nothing is taken
/// out, and nothing is found.
pub proof fn law_find_empties_first_holder(s: Seq<Slot>, query: u64, otherwise: Slot)
    ensures
        forall|at: int| #[trigger]
            is_first_holder(s, query, at) ==> model::removed(s, query) == s.update(
                at,
                emptied(s[at]),
            ) && model::found(s, query, otherwise) == s[at],
        !is_held(s, query) ==> model::removed(s, query) == s && model::found(s, query, otherwise)
            == otherwise,
{
    model::lemma_first_match(s, query, 0);
    assert forall|at: int| #[trigger] is_first_holder(s, query, at) implies model::removed(s, query)
        == s.update(at, emptied(s[at])) && model::found(s, query, otherwise) == s[at] by {
        model::lemma_first_match_is(s, query, 0, at);
    }
}

/// There is room for a block in the stash if and only if a slot is vacant or
/// holds the block itself.
pub proof fn law_stash_room(stash: Seq<Slot>, key: u64)
    ensures
        path_oram::has_room_for(stash, key) <==> has_vacancy(stash) || is_held(stash, key),
{
    contents::lemma_has_room_for(stash, key);
    if exists|i: int|
        0 <= i < stash.len() && ((#[trigger] stash[i]).vacant() || stash[i].block_num == key) {
        let i = choose|i: int|
            0 <= i < stash.len() && ((#[trigger] stash[i]).vacant() || stash[i].block_num == key);
        if stash[i].leaf_num != 0 {
            assert(is_held(stash, key));
        }
    }
}

/// The blocks of a row of slots are its slots that are not vacant, each as
/// often as it occurs.
pub proof fn law_blocks_are_slots(s: Seq<Slot>)
    ensures
        model::live(s) == s.filter(|x: Slot| x.leaf_num != 0).to_multiset(),
        model::live(s).len() == s.filter(|x: Slot| x.leaf_num != 0).len(),
    decreases s.len(),
{
    let pred = |x: Slot| x.leaf_num != 0;
    broadcast use vstd::seq_lib::group_to_multiset_ensures;

    reveal(Seq::filter);
    if s.len() > 0 {
        law_blocks_are_slots(s.drop_last());
        let init = s.drop_last().filter(pred);
        if pred(s.last()) {
            assert(s.filter(pred) == init.push(s.last()));
        } else {
            assert(s.filter(pred) == init);
        }
    }
    assert(model::live(s) =~= s.filter(pred).to_multiset());
}

/// The blocks of a sequence of buckets are those of all their slots.
pub proof fn law_blocks_are_slots_of_buckets(b: Seq<Seq<Slot>>)
    ensures
        model::live_in(b) == model::live(b.flatten_alt()),
    decreases b.len(),
{
    if b.len() > 0 {
        law_blocks_are_slots_of_buckets(b.drop_last());
        lemma_live_concat(b.drop_last().flatten_alt(), b.last());
    }
}

proof fn lemma_live_concat(s: Seq<Slot>, t: Seq<Slot>)
    ensures
        model::live(s + t) == model::live(s).add(model::live(t)),
    decreases t.len(),
{
    if t.len() == 0 {
        assert(s + t =~= s);
        assert(model::live(s).add(model::live(t)) =~= model::live(s));
    } else {
        lemma_live_concat(s, t.drop_last());
        assert((s + t).drop_last() =~= s + t.drop_last());
        assert((s + t).last() == t.last());
        assert(model::live(s + t) =~= model::live(s).add(model::live(t)));
    }
}

/// A slot that nothing was written to is vacant, and its bytes are all zero, as
/// are those of a value that nothing was written to.
pub proof fn law_zero_slot(value_size: nat)
    ensures
        model::zeros(value_size).len() == value_size,
        forall|i: int| 0 <= i < value_size ==> #[trigger] model::zeros(value_size)[i] == 0,
        Slot::zero(value_size).leaf_num == 0,
        Slot::zero(value_size).block_num == 0,
        Slot::zero(value_size).data.len() == value_size,
        forall|i: int| 0 <= i < value_size ==> #[trigger] Slot::zero(value_size).data[i] == 0,
{
}

// Branches.

/// Whether a block may stand `j` steps above `leaf`: whether that node lies on
/// the way from the root to the leaf that the block travels to.
pub open spec fn may_stand(x: Slot, leaf: u64, j: int) -> bool {
    exists|e: nat|
        x.leaf_num as nat / #[trigger] pow2(e) == leaf as nat / pow2(j as nat)
}

/// The buckets of the nodes from `leaf` up to the root.
pub open spec fn line(nodes: Seq<Seq<Slot>>, leaf: u64) -> Seq<Seq<Slot>> {
    Seq::new(
        tree::height(leaf as nat) + 1,
        |j: int| nodes[(leaf as nat / pow2(j as nat)) as int],
    )
}

/// Whether node `t` is `leaf` or lies above it.
pub open spec fn is_on_line(t: int, leaf: u64) -> bool {
    exists|j: nat|
        j <= tree::height(leaf as nat) && leaf as nat / #[trigger] pow2(j) == t
}

proof fn lemma_may_stand(x: Slot, leaf: u64, j: int)
    requires
        x.leaf_num != 0,
        leaf != 0,
        0 <= j <= tree::height(leaf as nat),
    ensures
        may_stand(x, leaf, j) <==> j >= packing::legal_index(
            x.leaf_num,
            leaf,
            tree::height(leaf as nat) + 1,
        ),
{
    let top = tree::ancestor(leaf as nat, j as nat);
    law_ancestor_drops_bits(leaf as nat, j as nat);
    tree::lemma_ancestor_height(leaf as nat, j as nat);
    law_is_ancestor_drops_bits(top, x.leaf_num as nat);
    laws::law_legal_is_above(x.leaf_num, leaf, j);
}

/// The first bucket of a branch in which a block may stand is the first one
/// whose node is on the way to the block's leaf; that of a vacant slot is the
/// root's.
pub proof fn law_legal_index(x: Slot, leaf: u64, j: int)
    requires
        leaf != 0,
        0 <= j <= tree::height(leaf as nat),
    ensures
        x.leaf_num != 0 ==> (may_stand(x, leaf, j) <==> packing::legal_index(
            x.leaf_num,
            leaf,
            tree::height(leaf as nat) + 1,
        ) <= j),
        x.leaf_num == 0 ==> packing::legal_index(
            x.leaf_num,
            leaf,
            tree::height(leaf as nat) + 1,
        ) == tree::height(leaf as nat),
{
    if x.leaf_num != 0 {
        lemma_may_stand(x, leaf, j);
    } else {
        let c = tree::common_ancestor(leaf as nat, 1);
        tree::lemma_common_ancestor(leaf as nat, 1, 1);
        tree::lemma_ancestor_bounds(c, 1);
    }
}

proof fn lemma_is_on_line(t: int, leaf: u64)
    requires
        0 <= t,
        leaf != 0,
    ensures
        is_on_line(t, leaf) <==> tree::is_ancestor(t as nat, leaf as nat),
        tree::is_ancestor(t as nat, leaf as nat) ==> t == leaf as nat / pow2(
            (tree::height(leaf as nat) - tree::height(t as nat)) as nat,
        ) && tree::height(t as nat) <= tree::height(leaf as nat),
{
    if tree::is_ancestor(t as nat, leaf as nat) {
        tree::lemma_is_ancestor_at(t as nat, leaf as nat);
        let j = (tree::height(leaf as nat) - tree::height(t as nat)) as nat;
        law_ancestor_drops_bits(leaf as nat, j);
        assert(leaf as nat / pow2(j) == t);
    }
    if is_on_line(t, leaf) {
        let j = choose|j: nat|
            j <= tree::height(leaf as nat) && leaf as nat / #[trigger] pow2(j) == t;
        law_ancestor_drops_bits(leaf as nat, j);
        tree::lemma_ancestor_height(leaf as nat, j);
    }
}

/// A checkout gives the buckets from the leaf up to the root.
pub proof fn law_checkout_gives_line(nodes: Seq<Seq<Slot>>, leaf: u64)
    requires
        leaf != 0,
    ensures
        storage::branch_of(nodes, leaf) == line(nodes, leaf),
{
    assert forall|j: int| 0 <= j <= tree::height(leaf as nat) implies storage::branch_of(
        nodes,
        leaf,
    )[j] == line(nodes, leaf)[j] by {
        law_ancestor_drops_bits(leaf as nat, j as nat);
    }
    assert(storage::branch_of(nodes, leaf) =~= line(nodes, leaf));
}

/// A checkin puts bucket `j` of the branch `j` steps above the leaf, and leaves
/// every other bucket as it is.
pub proof fn law_checkin_puts_line(nodes: Seq<Seq<Slot>>, leaf: u64, b: Seq<Seq<Slot>>)
    requires
        0 < leaf < nodes.len(),
    ensures
        ({
            let after = storage::with_branch(nodes, leaf, b);
            &&& after.len() == nodes.len()
            &&& forall|j: int|
                0 <= j <= tree::height(leaf as nat) ==> after[(leaf as nat / #[trigger] pow2(
                    j as nat,
                )) as int] == b[j]
            &&& forall|t: int|
                0 <= t < nodes.len() && !is_on_line(t, leaf) ==> #[trigger] after[t] == nodes[t]
        }),
{
    let after = storage::with_branch(nodes, leaf, b);
    assert forall|j: int| 0 <= j <= tree::height(leaf as nat) implies after[(leaf as nat
        / #[trigger] pow2(j as nat)) as int] == b[j] by {
        law_ancestor_drops_bits(leaf as nat, j as nat);
        tree::lemma_ancestor_height(leaf as nat, j as nat);
        tree::lemma_ancestor_bounds(tree::ancestor(leaf as nat, j as nat), leaf as nat);
    }
    assert forall|t: int|
        0 <= t < nodes.len() && !is_on_line(t, leaf) implies #[trigger] after[t] == nodes[t] by {
        lemma_is_on_line(t, leaf);
    }
}

/// Whether slot `i` of bucket `j` is where a block goes that looks for a place
/// in the first `end` buckets: the first vacant slot, in the first bucket that
/// has one and in which the block may stand.
pub open spec fn is_place(
    b: Seq<Seq<Slot>>,
    leaf: u64,
    x: Slot,
    end: int,
    j: int,
    i: int,
) -> bool {
    &&& 0 <= j < end
    &&& may_stand(x, leaf, j)
    &&& is_first_vacant(b[j], i)
    &&& forall|m: int| 0 <= m < j && may_stand(x, leaf, m) ==> !has_vacancy(#[trigger] b[m])
}

/// Whether none of the first `end` buckets in which a block may stand has a
/// vacant slot.
pub open spec fn has_no_place(b: Seq<Seq<Slot>>, leaf: u64, x: Slot, end: int) -> bool {
    forall|m: int| 0 <= m < end && may_stand(x, leaf, m) ==> !has_vacancy(#[trigger] b[m])
}

proof fn lemma_place(b: Seq<Seq<Slot>>, leaf: u64, x: Slot, end: int)
    requires
        leaf != 0,
        b.len() == tree::height(leaf as nat) + 1,
        0 <= end <= b.len(),
        x.leaf_num != 0,
    ensures
        ({
            let at = packing::first_open(
                b,
                packing::legal_index(x.leaf_num, leaf, b.len()),
                end,
            );
            &&& at >= end <==> has_no_place(b, leaf, x, end)
            &&& at < end ==> is_place(b, leaf, x, end, at, model::first_vacant(b[at], 0))
            &&& forall|j: int, i: int|
                is_place(b, leaf, x, end, j, i) ==> at < end && j == at && i
                    == model::first_vacant(b[at], 0)
        }),
{
    let from = packing::legal_index(x.leaf_num, leaf, b.len());
    let at = packing::first_open(b, from, end);
    packing::lemma_legal_index(x.leaf_num, leaf, b.len());
    packing::lemma_first_open(b, from, end);
    assert forall|m: int| 0 <= m < b.len() implies (may_stand(x, leaf, m) <==> from <= m) && (
    model::has_room(#[trigger] b[m]) <==> has_vacancy(b[m])) by {
        lemma_may_stand(x, leaf, m);
        lemma_has_vacancy(b[m]);
    }
    if at < end {
        lemma_has_vacancy(b[at]);
        assert(has_vacancy(b[at]) && may_stand(x, leaf, at));
    }
    assert forall|j: int, i: int| is_place(b, leaf, x, end, j, i) implies at < end && j == at && i
        == model::first_vacant(b[at], 0) by {
        assert(has_vacancy(b[j]));
        lemma_has_vacancy(b[j]);
    }
}

/// A block that is put into a branch goes to the first vacant slot, in the
/// first bucket that has one and in which the block may stand; it is put
/// somewhere if and only if there is such a slot.
pub proof fn law_branch_insert(b: Seq<Seq<Slot>>, leaf: u64, item: Slot)
    requires
        leaf != 0,
        b.len() == tree::height(leaf as nat) + 1,
        item.leaf_num != 0,
    ensures
        ({
            let from = packing::legal_index(item.leaf_num, leaf, b.len());
            let len = b.len() as int;
            &&& packing::first_open(b, from, len) < len <==> !has_no_place(b, leaf, item, len)
            &&& forall|j: int, i: int| #[trigger]
                is_place(b, leaf, item, len, j, i) ==> packing::placed(b, item, from) == b.update(
                    j,
                    b[j].update(i, item),
                )
            &&& has_no_place(b, leaf, item, len) ==> packing::placed(b, item, from) == b
        }),
{
    lemma_place(b, leaf, item, b.len() as int);
    assert forall|j: int, i: int| #[trigger]
        is_place(b, leaf, item, b.len() as int, j, i) implies packing::placed(
        b,
        item,
        packing::legal_index(item.leaf_num, leaf, b.len()),
    ) == b.update(j, b[j].update(i, item)) by {
        lemma_has_vacancy(b[j]);
    }
}

/// A block is taken out of the first slot that holds it, in the first bucket
/// that does, and that slot is what is found; nothing else changes. If no
/// bucket holds the block, nothing is taken out, and nothing is found.
pub proof fn law_branch_find(b: Seq<Seq<Slot>>, query: u64, otherwise: Slot)
    ensures
        forall|j: int, i: int|
            0 <= j < b.len() && #[trigger] is_first_holder(b[j], query, i) && (forall|m: int|
                0 <= m < j ==> !is_held(#[trigger] b[m], query)) ==> packing::branch_removed(
                b,
                query,
            ) == b.update(j, b[j].update(i, emptied(b[j][i]))) && packing::branch_found(
                b,
                query,
                otherwise,
            ) == b[j][i],
        (forall|m: int| 0 <= m < b.len() ==> !is_held(#[trigger] b[m], query))
            ==> packing::branch_removed(b, query) == b && packing::branch_found(
            b,
            query,
            otherwise,
        ) == otherwise,
{
    packing::lemma_first_holder(b, query, 0);
    let at = packing::first_holder(b, query, 0);
    assert forall|m: int| 0 <= m < b.len() implies (packing::bucket_holds(#[trigger] b[m], query)
        <==> is_held(b[m], query)) by {
        model::lemma_first_match(b[m], query, 0);
    }
    assert forall|j: int, i: int|
        0 <= j < b.len() && #[trigger] is_first_holder(b[j], query, i) && (forall|m: int|
            0 <= m < j ==> !is_held(#[trigger] b[m], query)) implies packing::branch_removed(
        b,
        query,
    ) == b.update(j, b[j].update(i, emptied(b[j][i]))) && packing::branch_found(
        b,
        query,
        otherwise,
    ) == b[j][i] by {
        assert(is_held(b[j], query));
        assert(at == j);
        law_find_empties_first_holder(b[j], query, otherwise);
    }
}

/// The blocks of a branch are in their places if each may stand in its bucket.
pub proof fn law_legal_branch(b: Seq<Seq<Slot>>, leaf: u64)
    requires
        leaf != 0,
        b.len() == tree::height(leaf as nat) + 1,
    ensures
        packing::legal(b, leaf) <==> forall|j: int, i: int|
            0 <= j < b.len() && 0 <= i < b[j].len() && (#[trigger] b[j][i]).leaf_num != 0
                ==> may_stand(b[j][i], leaf, j),
{
    assert forall|j: int, i: int|
        0 <= j < b.len() && 0 <= i < b[j].len() && (
        #[trigger] b[j][i]).leaf_num != 0 implies (may_stand(b[j][i], leaf, j) <==> j
        >= packing::legal_index(b[j][i].leaf_num, leaf, b.len())) by {
        lemma_may_stand(b[j][i], leaf, j);
    }
}

/// Whether `after` is `b` once the block in slot `i` of bucket `n` has looked
/// for a place in the buckets before its own, and has gone there if there was
/// one.
pub open spec fn is_pulled(
    b: Seq<Seq<Slot>>,
    after: Seq<Seq<Slot>>,
    leaf: u64,
    n: int,
    i: int,
) -> bool {
    let x = b[n][i];
    &&& x.leaf_num == 0 || has_no_place(b, leaf, x, n) ==> after == b
    &&& x.leaf_num != 0 ==> forall|j: int, k: int| #[trigger]
        is_place(b, leaf, x, n, j, k) ==> after == b.update(j, b[j].update(k, x)).update(
            n,
            b[n].update(i, emptied(x)),
        )
}

proof fn lemma_is_pulled(b: Seq<Seq<Slot>>, leaf: u64, n: int, i: int)
    requires
        leaf != 0,
        b.len() == tree::height(leaf as nat) + 1,
        0 <= n < b.len(),
        0 <= i < b[n].len(),
    ensures
        is_pulled(b, packing::pack_slot(b, leaf, n, i), leaf, n, i),
{
    let x = b[n][i];
    if x.leaf_num != 0 {
        lemma_place(b, leaf, x, n);
        assert forall|j: int, k: int| #[trigger] is_place(b, leaf, x, n, j, k) implies
            packing::pack_slot(b, leaf, n, i) == b.update(j, b[j].update(k, x)).update(
            n,
            b[n].update(i, emptied(x)),
        ) by {
            lemma_has_vacancy(b[j]);
        }
    }
}

/// Packing goes through the branch from the bucket next to the leaf's up to the
/// root's, and through the slots of each in order; each block goes to the first
/// vacant slot, in the first bucket before its own that has one and in which
/// the block may stand. `steps(n, i)` is the branch when it comes to slot `i`
/// of bucket `n`.
pub proof fn law_pack_goes_slot_by_slot(b: Seq<Seq<Slot>>, leaf: u64) -> (steps: spec_fn(
    int,
    int,
) -> Seq<Seq<Slot>>)
    requires
        leaf != 0,
        b.len() == tree::height(leaf as nat) + 1,
    ensures
        steps(1, 0) == b,
        forall|n: int, i: int|
            1 <= n < b.len() && 0 <= i < b[n].len() ==> is_pulled(
                #[trigger] steps(n, i),
                steps(n, i + 1),
                leaf,
                n,
                i,
            ),
        forall|n: int|
            1 <= n < b.len() ==> steps(n, (#[trigger] b[n]).len() as int) == steps(n + 1, 0),
        steps(b.len() as int, 0) == packing::packed(b, leaf, b.len() as int),
{
    let steps = |n: int, i: int| packing::pack_bucket(packing::packed(b, leaf, n), leaf, n, i);
    assert forall|n: int, i: int|
        1 <= n < b.len() && 0 <= i < b[n].len() implies is_pulled(
        #[trigger] steps(n, i),
        steps(n, i + 1),
        leaf,
        n,
        i,
    ) by {
        packing::lemma_packed(b, leaf, n);
        packing::lemma_pack_bucket(packing::packed(b, leaf, n), leaf, n, i);
        lemma_is_pulled(steps(n, i), leaf, n, i);
    }
    steps
}

// Evictions.

/// Whether `after` is what becomes of the stash and the branch once the block
/// in slot `i` of the stash has looked for a place in the branch, and has gone
/// there if there was one.
pub open spec fn is_dropped(
    stash: Seq<Slot>,
    b: Seq<Seq<Slot>>,
    after: (Seq<Slot>, Seq<Seq<Slot>>),
    leaf: u64,
    i: int,
) -> bool {
    let x = stash[i];
    let len = b.len() as int;
    &&& x.leaf_num == 0 || has_no_place(b, leaf, x, len) ==> after == (stash, b)
    &&& x.leaf_num != 0 ==> forall|j: int, k: int| #[trigger]
        is_place(b, leaf, x, len, j, k) ==> after == (
            stash.update(i, emptied(x)),
            b.update(j, b[j].update(k, x)),
        )
}

/// The eviction of Path ORAM packs the branch and then goes through the stash
/// in order; each block of the stash goes to the first vacant slot, in the
/// first bucket that has one and in which the block may stand. `steps(i)` is
/// the stash and the branch when it comes to slot `i` of the stash.
pub proof fn law_path_eviction_goes_slot_by_slot<
    const VALUE_SIZE: usize,
    const Z: usize,
    const N: usize,
    R: NodeRng,
>(evictor: evictor::PathOramEvict<R>, stash: Seq<Slot>, b: Seq<Seq<Slot>>, leaf: u64) -> (steps:
    spec_fn(int) -> (Seq<Slot>, Seq<Seq<Slot>>))
    requires
        leaf != 0,
        b.len() == tree::height(leaf as nat) + 1,
    ensures
        steps(0) == (stash, packing::packed(b, leaf, b.len() as int)),
        forall|i: int|
            0 <= i < stash.len() ==> is_dropped(
                (#[trigger] steps(i)).0,
                steps(i).1,
                steps(i + 1),
                leaf,
                i,
            ),
        steps(stash.len() as int) == Evictor::<VALUE_SIZE, Z, N>::evicted(
            &evictor,
            stash,
            b,
            leaf,
        ),
{
    let p = packing::packed(b, leaf, b.len() as int);
    packing::lemma_packed(b, leaf, b.len() as int);
    let steps = |i: int| packing::unstashed(stash, p, leaf, i);
    assert forall|i: int| 0 <= i < stash.len() implies is_dropped(
        (#[trigger] steps(i)).0,
        steps(i).1,
        steps(i + 1),
        leaf,
        i,
    ) by {
        packing::lemma_unstashed(stash, p, leaf, i);
        let (s, c) = steps(i);
        let x = s[i];
        if x.leaf_num != 0 {
            law_branch_insert(c, leaf, x);
            lemma_place(c, leaf, x, c.len() as int);
        }
    }
    steps
}

/// Whether the stash and a branch are as a greedy eviction leaves them: no block
/// of the stash may stand in a bucket with a vacant slot, and no block of the
/// branch may stand in such a bucket that is closer to the leaf than its own.
pub open spec fn is_greedy(stash: Seq<Slot>, b: Seq<Seq<Slot>>, leaf: u64) -> bool {
    &&& forall|i: int|
        0 <= i < stash.len() && (#[trigger] stash[i]).leaf_num != 0 ==> has_no_place(
            b,
            leaf,
            stash[i],
            b.len() as int,
        )
    &&& forall|j: int, i: int|
        0 <= j < b.len() && 0 <= i < b[j].len() && (#[trigger] b[j][i]).leaf_num != 0
            ==> has_no_place(b, leaf, b[j][i], j)
}

/// The eviction of Path ORAM is greedy.
pub proof fn law_path_eviction_leaves_no_place<
    const VALUE_SIZE: usize,
    const Z: usize,
    const N: usize,
    R: NodeRng,
>(evictor: evictor::PathOramEvict<R>, stash: Seq<Slot>, b: Seq<Seq<Slot>>, leaf: u64)
    requires
        leaf != 0,
        b.len() == tree::height(leaf as nat) + 1,
    ensures
        ({
            let (s, c) = Evictor::<VALUE_SIZE, Z, N>::evicted(&evictor, stash, b, leaf);
            c.len() == b.len() && is_greedy(s, c, leaf)
        }),
{
    let (s, c) = Evictor::<VALUE_SIZE, Z, N>::evicted(&evictor, stash, b, leaf);
    let p = packing::packed(b, leaf, b.len() as int);
    packing::lemma_packed(b, leaf, b.len() as int);
    packing::lemma_unstashed(stash, p, leaf, stash.len() as int);
    laws::law_path_eviction_is_greedy::<VALUE_SIZE, Z, N, R>(evictor, stash, b, leaf);
    assert forall|i: int| 0 <= i < s.len() && (#[trigger] s[i]).leaf_num != 0 implies has_no_place(
        c,
        leaf,
        s[i],
        c.len() as int,
    ) by {
        assert forall|m: int|
            0 <= m < c.len() && may_stand(s[i], leaf, m) implies !has_vacancy(#[trigger] c[m]) by {
            lemma_may_stand(s[i], leaf, m);
            lemma_has_vacancy(c[m]);
        }
    }
    assert forall|j: int, i: int|
        0 <= j < c.len() && 0 <= i < c[j].len() && (
        #[trigger] c[j][i]).leaf_num != 0 implies has_no_place(c, leaf, c[j][i], j) by {
        assert forall|m: int|
            0 <= m < j && may_stand(c[j][i], leaf, m) implies !has_vacancy(#[trigger] c[m]) by {
            lemma_may_stand(c[j][i], leaf, m);
            lemma_has_vacancy(c[m]);
        }
    }
}

/// The slot at a source.
pub open spec fn slot_of(stash: Seq<Slot>, b: Seq<Seq<Slot>>, src: Source) -> Slot {
    match src {
        Source::Bucket(m, c) => b[m][c],
        Source::Stash(c) => stash[c],
    }
}

/// Whether there is a block at `src`, in any slot of a bucket above bucket `n`
/// or in any slot of the stash.
pub open spec fn is_above(stash: Seq<Slot>, b: Seq<Seq<Slot>>, n: int, src: Source) -> bool {
    &&& match src {
        Source::Bucket(m, c) => n < m < b.len() && 0 <= c < b[m].len(),
        Source::Stash(c) => 0 <= c < stash.len(),
    }
    &&& slot_of(stash, b, src).leaf_num != 0
}

/// Whether `a` comes before `o`: the buckets upwards, the slots of each in
/// order, the stash last.
pub open spec fn is_before(a: Source, o: Source) -> bool {
    match (a, o) {
        (Source::Bucket(m, c), Source::Bucket(n, d)) => m < n || (m == n && c < d),
        (Source::Bucket(m, c), Source::Stash(d)) => true,
        (Source::Stash(c), Source::Bucket(n, d)) => false,
        (Source::Stash(c), Source::Stash(d)) => c < d,
    }
}

/// Whether `x` may stand wherever `y` may, in a branch of `len` buckets.
pub open spec fn goes_as_deep(x: Slot, y: Slot, leaf: u64, len: int) -> bool {
    forall|j: int| 0 <= j < len && #[trigger] may_stand(y, leaf, j) ==> may_stand(x, leaf, j)
}

/// Whether the block at `src` is the one that may go deepest, of all those
/// above bucket `n` and in the stash; of several, whether it comes first.
pub open spec fn is_deepest_above(
    stash: Seq<Slot>,
    b: Seq<Seq<Slot>>,
    leaf: u64,
    n: int,
    src: Source,
) -> bool {
    &&& is_above(stash, b, n, src)
    &&& forall|o: Source| #[trigger]
        is_above(stash, b, n, o) && o != src ==> {
            let x = slot_of(stash, b, src);
            let y = slot_of(stash, b, o);
            let len = b.len() as int;
            &&& goes_as_deep(x, y, leaf, len)
            &&& goes_as_deep(y, x, leaf, len) ==> is_before(src, o)
        }
}

/// Whether there is nothing to do at bucket `n`: it has no vacant slot, or no
/// block above it or in the stash may stand in it.
pub open spec fn is_done(stash: Seq<Slot>, b: Seq<Seq<Slot>>, leaf: u64, n: int) -> bool {
    has_vacancy(b[n]) ==> forall|src: Source| #[trigger]
        is_above(stash, b, n, src) ==> !may_stand(slot_of(stash, b, src), leaf, n)
}

/// A state of the eviction of Circuit ORAM: the stash, the branch, and the
/// bucket that it comes to.
pub struct Visit {
    pub stash: Seq<Slot>,
    pub branch: Seq<Seq<Slot>>,
    pub bucket: int,
}

/// Whether a visit leads to `after`. If there is nothing to do at the bucket,
/// the next one follows. Otherwise the block that may go deepest moves to the
/// first vacant slot of the bucket; if it came out of the stash, that is the
/// end, and otherwise the bucket follows whose index is the number of buckets
/// that the block has moved.
pub open spec fn is_visited(v: Visit, after: Visit, leaf: u64) -> bool {
    let n = v.bucket;
    let b = v.branch;
    &&& is_done(v.stash, b, leaf, n) ==> after == (Visit { bucket: n + 1, ..v })
    &&& !is_done(v.stash, b, leaf, n) ==> forall|i: int, src: Source|
        #![trigger is_first_vacant(b[n], i), is_deepest_above(v.stash, b, leaf, n, src)]
        is_first_vacant(b[n], i) && is_deepest_above(v.stash, b, leaf, n, src) ==> {
            let x = slot_of(v.stash, b, src);
            let filled = b.update(n, b[n].update(i, x));
            match src {
                Source::Bucket(m, c) => after == (Visit {
                    stash: v.stash,
                    branch: filled.update(m, b[m].update(c, emptied(x))),
                    bucket: m - n,
                }),
                Source::Stash(c) => after == (Visit {
                    stash: v.stash.update(c, emptied(x)),
                    branch: filled,
                    bucket: b.len() as int,
                }),
            }
        }
    &&& !is_done(v.stash, b, leaf, n) ==> exists|i: int, src: Source|
        #![trigger is_first_vacant(b[n], i), is_deepest_above(v.stash, b, leaf, n, src)]
        is_first_vacant(b[n], i) && is_deepest_above(v.stash, b, leaf, n, src)
}

proof fn lemma_goes_as_deep(x: Slot, y: Slot, leaf: u64, len: int)
    requires
        leaf != 0,
        len == tree::height(leaf as nat) + 1,
        x.leaf_num != 0,
        y.leaf_num != 0,
    ensures
        goes_as_deep(x, y, leaf, len) <==> packing::legal_index(x.leaf_num, leaf, len as nat)
            <= packing::legal_index(y.leaf_num, leaf, len as nat),
{
    let d = packing::legal_index(y.leaf_num, leaf, len as nat);
    packing::lemma_legal_index(y.leaf_num, leaf, len as nat);
    lemma_may_stand(x, leaf, d);
    lemma_may_stand(y, leaf, d);
    assert forall|j: int| 0 <= j < len && #[trigger] may_stand(y, leaf, j) && packing::legal_index(
        x.leaf_num,
        leaf,
        len as nat,
    ) <= d implies may_stand(x, leaf, j) by {
        lemma_may_stand(x, leaf, j);
        lemma_may_stand(y, leaf, j);
    }
}

proof fn lemma_deepest_above(
    stash: Seq<Slot>,
    b: Seq<Seq<Slot>>,
    leaf: u64,
    n: int,
    src: Source,
)
    requires
        leaf != 0,
        b.len() == tree::height(leaf as nat) + 1,
        0 <= n < b.len(),
    ensures
        circuit::is_deepest(stash, b, leaf, n, src) <==> is_deepest_above(stash, b, leaf, n, src),
{
    let x = slot_of(stash, b, src);
    assert forall|o: Source| is_above(stash, b, n, o) == circuit::candidate(stash, b, n, o) by {}
    if circuit::is_deepest(stash, b, leaf, n, src) {
        assert forall|o: Source| #[trigger] is_above(stash, b, n, o) && o != src implies ({
            let y = slot_of(stash, b, o);
            let len = b.len() as int;
            &&& goes_as_deep(x, y, leaf, len)
            &&& goes_as_deep(y, x, leaf, len) ==> is_before(src, o)
        }) by {
            assert(circuit::candidate(stash, b, n, o));
            lemma_goes_as_deep(x, slot_of(stash, b, o), leaf, b.len() as int);
            lemma_goes_as_deep(slot_of(stash, b, o), x, leaf, b.len() as int);
        }
    }
    if is_deepest_above(stash, b, leaf, n, src) {
        assert forall|o: Source| #[trigger]
            circuit::candidate(stash, b, n, o) && o != src implies circuit::preferred(
            stash,
            b,
            leaf,
            src,
            o,
        ) by {
            assert(is_above(stash, b, n, o));
            lemma_goes_as_deep(x, slot_of(stash, b, o), leaf, b.len() as int);
            lemma_goes_as_deep(slot_of(stash, b, o), x, leaf, b.len() as int);
        }
    }
}

proof fn lemma_is_done(stash: Seq<Slot>, b: Seq<Seq<Slot>>, leaf: u64, n: int)
    requires
        leaf != 0,
        b.len() == tree::height(leaf as nat) + 1,
        0 <= n < b.len(),
    ensures
        circuit::fills(stash, b, leaf, n) <==> !is_done(stash, b, leaf, n),
        circuit::fills(stash, b, leaf, n) ==> {
            let src = circuit::deepest(stash, b, leaf, n).unwrap();
            &&& is_deepest_above(stash, b, leaf, n, src)
            &&& may_stand(slot_of(stash, b, src), leaf, n)
            &&& is_first_vacant(b[n], model::first_vacant(b[n], 0))
            &&& forall|o: Source|
                is_deepest_above(stash, b, leaf, n, o) ==> o == src
        },
{
    lemma_has_vacancy(b[n]);
    if circuit::fills(stash, b, leaf, n) {
        let src = circuit::deepest(stash, b, leaf, n).unwrap();
        assert(circuit::is_deepest(stash, b, leaf, n, src));
        lemma_deepest_above(stash, b, leaf, n, src);
        lemma_may_stand(slot_of(stash, b, src), leaf, n);
        assert forall|o: Source| is_deepest_above(stash, b, leaf, n, o) implies o == src by {
            lemma_deepest_above(stash, b, leaf, n, o);
            circuit::lemma_deepest_is(stash, b, leaf, n, o);
        }
        assert(is_above(stash, b, n, src));
    }
    if !is_done(stash, b, leaf, n) {
        let o = choose|o: Source| #[trigger]
            is_above(stash, b, n, o) && may_stand(slot_of(stash, b, o), leaf, n);
        assert(circuit::candidate(stash, b, n, o));
        circuit::lemma_deepest_exists(stash, b, leaf, n, o);
        lemma_may_stand(slot_of(stash, b, o), leaf, n);
    }
}

proof fn lemma_is_visited(stash: Seq<Slot>, b: Seq<Seq<Slot>>, leaf: u64, n: int)
    requires
        leaf != 0,
        b.len() == tree::height(leaf as nat) + 1,
        0 <= n < b.len(),
    ensures
        is_visited(
            (Visit { stash, branch: b, bucket: n }),
            (Visit {
                stash: circuit::stash_after(stash, b, leaf, n),
                branch: circuit::branch_after(stash, b, leaf, n),
                bucket: circuit::bucket_after(stash, b, leaf, n),
            }),
            leaf,
        ),
{
    lemma_is_done(stash, b, leaf, n);
    lemma_has_vacancy(b[n]);
}

/// The eviction of Circuit ORAM starts at the bucket of the leaf and goes on
/// visit by visit until it comes to no bucket any more.
pub proof fn law_circuit_eviction_goes_visit_by_visit<
    const VALUE_SIZE: usize,
    const Z: usize,
    const N: usize,
>(
    evictor: evictor::CircuitOramNonobliviousEvict,
    stash: Seq<Slot>,
    b: Seq<Seq<Slot>>,
    leaf: u64,
) -> (visits: Seq<Visit>)
    requires
        leaf != 0,
        b.len() == tree::height(leaf as nat) + 1,
    ensures
        visits.len() >= 1,
        visits[0] == (Visit { stash, branch: b, bucket: 0 }),
        forall|k: int|
            0 <= k < visits.len() - 1 ==> 0 <= (#[trigger] visits[k]).bucket < b.len()
                && is_visited(visits[k], visits[k + 1], leaf),
        visits.last().bucket >= b.len(),
        (visits.last().stash, visits.last().branch) == Evictor::<VALUE_SIZE, Z, N>::evicted(
            &evictor,
            stash,
            b,
            leaf,
        ),
{
    lemma_circuit_visits(stash, b, leaf, 0)
}

proof fn lemma_circuit_visits(stash: Seq<Slot>, b: Seq<Seq<Slot>>, leaf: u64, n: int) -> (visits:
    Seq<Visit>)
    requires
        leaf != 0,
        b.len() == tree::height(leaf as nat) + 1,
        0 <= n,
    ensures
        visits.len() >= 1,
        visits[0] == (Visit { stash, branch: b, bucket: n }),
        forall|k: int|
            0 <= k < visits.len() - 1 ==> 0 <= (#[trigger] visits[k]).bucket < b.len()
                && is_visited(visits[k], visits[k + 1], leaf),
        visits.last().bucket >= b.len(),
        (visits.last().stash, visits.last().branch) == circuit::evicted(stash, b, leaf, n),
    decreases circuit::weight(stash, b), b.len() - n,
{
    let here = Visit { stash, branch: b, bucket: n };
    if n < b.len() {
        let s = circuit::stash_after(stash, b, leaf, n);
        let c = circuit::branch_after(stash, b, leaf, n);
        let next = circuit::bucket_after(stash, b, leaf, n);
        circuit::lemma_visit_weight(stash, b, leaf, n);
        lemma_is_visited(stash, b, leaf, n);
        let rest = lemma_circuit_visits(s, c, leaf, next);
        let visits = seq![here] + rest;
        assert forall|k: int| 0 <= k < visits.len() - 1 implies 0 <= (
        #[trigger] visits[k]).bucket < b.len() && is_visited(visits[k], visits[k + 1], leaf) by {
            if k > 0 {
                assert(visits[k] == rest[k - 1]);
                assert(visits[k + 1] == rest[k]);
            } else {
                assert(visits[1] == rest[0]);
            }
        }
        assert(visits.last() == rest.last());
        visits
    } else {
        seq![here]
    }
}

proof fn lemma_circuit_keeps_leaf_bucket(
    stash: Seq<Slot>,
    b: Seq<Seq<Slot>>,
    leaf: u64,
    n: int,
)
    requires
        0 < n,
        b.len() > 0,
    ensures
        circuit::evicted(stash, b, leaf, n).1[0] == b[0],
    decreases circuit::weight(stash, b), b.len() - n,
{
    if n < b.len() {
        let s = circuit::stash_after(stash, b, leaf, n);
        let c = circuit::branch_after(stash, b, leaf, n);
        circuit::lemma_visit_weight(stash, b, leaf, n);
        if circuit::fills(stash, b, leaf, n) {
            let src = circuit::deepest(stash, b, leaf, n).unwrap();
            assert(circuit::is_deepest(stash, b, leaf, n, src));
        }
        assert(c[0] == b[0]);
        lemma_circuit_keeps_leaf_bucket(s, c, leaf, circuit::bucket_after(stash, b, leaf, n));
    }
}

/// In the eviction of Circuit ORAM, if the bucket of the leaf has a vacant slot
/// and some block above it or in the stash may stand in it, the first such
/// block is in the first vacant slot afterwards; otherwise the bucket is as it
/// was.
pub proof fn law_circuit_eviction_fills_leaf_bucket<
    const VALUE_SIZE: usize,
    const Z: usize,
    const N: usize,
>(
    evictor: evictor::CircuitOramNonobliviousEvict,
    stash: Seq<Slot>,
    b: Seq<Seq<Slot>>,
    leaf: u64,
    i: int,
    src: Source,
)
    requires
        leaf != 0,
        b.len() == tree::height(leaf as nat) + 1,
    ensures
        ({
            let c = Evictor::<VALUE_SIZE, Z, N>::evicted(&evictor, stash, b, leaf).1;
            &&& is_first_vacant(b[0], i) && is_above(stash, b, 0, src) && may_stand(
                slot_of(stash, b, src),
                leaf,
                0,
            ) && (forall|o: Source| #[trigger]
                is_above(stash, b, 0, o) && may_stand(slot_of(stash, b, o), leaf, 0) && o != src
                    ==> is_before(src, o)) ==> c[0] == b[0].update(i, slot_of(stash, b, src))
            &&& is_done(stash, b, leaf, 0) ==> c[0] == b[0]
        }),
{
    circuit::lemma_visit_weight(stash, b, leaf, 0);
    let s = circuit::stash_after(stash, b, leaf, 0);
    let c = circuit::branch_after(stash, b, leaf, 0);
    lemma_circuit_keeps_leaf_bucket(s, c, leaf, circuit::bucket_after(stash, b, leaf, 0));
    lemma_is_done(stash, b, leaf, 0);
    lemma_has_vacancy(b[0]);
    if is_first_vacant(b[0], i) && is_above(stash, b, 0, src) && may_stand(
        slot_of(stash, b, src),
        leaf,
        0,
    ) && (forall|o: Source| #[trigger]
        is_above(stash, b, 0, o) && may_stand(slot_of(stash, b, o), leaf, 0) && o != src
            ==> is_before(src, o)) {
        assert(!is_done(stash, b, leaf, 0));
        let best = circuit::deepest(stash, b, leaf, 0).unwrap();
        if best != src {
            let x = slot_of(stash, b, src);
            let y = slot_of(stash, b, best);
            assert(is_before(src, best));
            lemma_may_stand(x, leaf, 0);
            lemma_may_stand(y, leaf, 0);
            packing::lemma_legal_index(x.leaf_num, leaf, b.len());
            packing::lemma_legal_index(y.leaf_num, leaf, b.len());
            lemma_goes_as_deep(x, y, leaf, b.len() as int);
        }
    }
}

proof fn lemma_circuit_settles(stash: Seq<Slot>, b: Seq<Seq<Slot>>, leaf: u64, n: int)
    requires
        leaf != 0,
        b.len() == tree::height(leaf as nat) + 1,
        0 <= n,
        forall|k: int|
            0 <= k < b.len() && (k < n || 2 * k < b.len() - 1) ==> #[trigger] is_done(
                stash,
                b,
                leaf,
                k,
            ),
    ensures
        ({
            let (s, c) = circuit::evicted(stash, b, leaf, n);
            s != stash || forall|k: int| 0 <= k < b.len() ==> #[trigger] is_done(s, c, leaf, k)
        }),
    decreases circuit::weight(stash, b), b.len() - n,
{
    if n < b.len() {
        let s = circuit::stash_after(stash, b, leaf, n);
        let c = circuit::branch_after(stash, b, leaf, n);
        let next = circuit::bucket_after(stash, b, leaf, n);
        circuit::lemma_visit_weight(stash, b, leaf, n);
        assert(circuit::evicted(stash, b, leaf, n) == circuit::evicted(s, c, leaf, next));
        lemma_is_done(stash, b, leaf, n);
        if circuit::fills(stash, b, leaf, n) {
            let src = circuit::deepest(stash, b, leaf, n).unwrap();
            assert(is_above(stash, b, n, src));
            match src {
                Source::Bucket(m, i) => {
                    let v = model::first_vacant(b[n], 0);
                    assert forall|k: int| 0 <= k < n implies #[trigger] is_done(s, c, leaf, k) by {
                        assert(is_done(stash, b, leaf, k));
                        assert(c[k] == b[k]);
                        assert forall|o: Source| #[trigger]
                            is_above(s, c, k, o) && has_vacancy(c[k]) implies !may_stand(
                            slot_of(s, c, o),
                            leaf,
                            k,
                        ) by {
                            if o == Source::Bucket(n, v) {
                                assert(is_above(stash, b, k, src));
                            } else {
                                assert(is_above(stash, b, k, o));
                                assert(slot_of(s, c, o) == slot_of(stash, b, o));
                            }
                        }
                    }
                    lemma_circuit_settles(s, c, leaf, next);
                },
                Source::Stash(i) => {
                    assert(s[i].leaf_num == 0 && stash[i].leaf_num != 0);
                    assert(s != stash);
                    assert(circuit::evicted(s, c, leaf, next) == (s, c));
                },
            }
        } else {
            lemma_circuit_settles(s, c, leaf, next);
        }
    }
}

/// If there is nothing to do at the lower half of a branch, the eviction of
/// Circuit ORAM takes a block out of the stash, or leaves a branch at none of
/// whose buckets there is anything to do: each of them is full, or no block
/// above it or in the stash may stand in it.
pub proof fn law_circuit_eviction_finishes_upper_half<
    const VALUE_SIZE: usize,
    const Z: usize,
    const N: usize,
>(
    evictor: evictor::CircuitOramNonobliviousEvict,
    stash: Seq<Slot>,
    b: Seq<Seq<Slot>>,
    leaf: u64,
)
    requires
        leaf != 0,
        b.len() == tree::height(leaf as nat) + 1,
        forall|k: int|
            0 <= k < b.len() && 2 * k < b.len() - 1 ==> #[trigger] is_done(stash, b, leaf, k),
    ensures
        ({
            let (s, c) = Evictor::<VALUE_SIZE, Z, N>::evicted(&evictor, stash, b, leaf);
            s != stash || forall|k: int| 0 <= k < b.len() ==> #[trigger] is_done(s, c, leaf, k)
        }),
{
    lemma_circuit_settles(stash, b, leaf, 0);
}

// Choices.

/// One choice of the evictor of Path ORAM draws as many nodes as branches are
/// to be chosen: each is drawn below the root, at the height of the tree, and
/// is the leaf that is chosen. Nothing else is drawn.
pub proof fn law_path_choice_is_drawn<
    const VALUE_SIZE: usize,
    const Z: usize,
    const N: usize,
    R: NodeRng,
>(
    before: evictor::PathOramEvict<R>,
    after: evictor::PathOramEvict<R>,
    iteration: u64,
    tree_height: u32,
    tree_size: u64,
    leaves: Seq<u64>,
)
    requires
        Evictor::<VALUE_SIZE, Z, N>::chooses(
            &before,
            &after,
            iteration,
            tree_height,
            tree_size,
            leaves,
        ),
    ensures
        leaves.len() == N,
        after.rng().drawn().len() == before.rng().drawn().len() + N,
        forall|k: int|
            0 <= k < before.rng().drawn().len() ==> #[trigger] after.rng().drawn()[k]
                == before.rng().drawn()[k],
        forall|i: int|
            0 <= i < N ==> after.rng().drawn()[before.rng().drawn().len() + i] == (Draw {
                node: 1,
                tree_height,
                child: #[trigger] leaves[i],
            }),
{
}

/// Branches can be chosen by the evictor of Path ORAM at any access, and by
/// the one of Circuit ORAM as long as the turns fit in 64 bits.
pub proof fn law_ready<
    const VALUE_SIZE: usize,
    const Z: usize,
    const N: usize,
    R: NodeRng,
>(
    path: evictor::PathOramEvict<R>,
    other: evictor::CircuitOramNonobliviousEvict,
    iteration: u64,
    tree_height: u32,
)
    ensures
        Evictor::<VALUE_SIZE, Z, N>::ready(&path, iteration, tree_height),
        Evictor::<VALUE_SIZE, Z, N>::ready(&other, iteration, tree_height) <==> N * iteration + N
            <= 0x1_0000_0000_0000_0000,
{
}

/// The evictor of Circuit ORAM takes turns: at access number `iteration` it
/// chooses the leaves of turns `N * iteration` and those after it. Below the
/// first bit, which is a one, the bits of each are the last bits of its turn in
/// the opposite order.
pub proof fn law_circuit_choice_takes_turns<
    const VALUE_SIZE: usize,
    const Z: usize,
    const N: usize,
>(
    before: evictor::CircuitOramNonobliviousEvict,
    after: evictor::CircuitOramNonobliviousEvict,
    iteration: u64,
    tree_height: u32,
    tree_size: u64,
    leaves: Seq<u64>,
    i: int,
    k: nat,
)
    requires
        Evictor::<VALUE_SIZE, Z, N>::chooses(
            &before,
            &after,
            iteration,
            tree_height,
            tree_size,
            leaves,
        ),
        0 <= i < N,
    ensures
        leaves.len() == N,
        pow2(tree_height as nat) <= leaves[i] < pow2(tree_height as nat + 1),
        k < tree_height ==> ((leaves[i] - pow2(tree_height as nat)) as nat / pow2(k)) % 2 == ((N
            * iteration + i) as nat / pow2((tree_height - 1 - k) as nat)) % 2,
{
    let turn = (N * iteration + i) as nat;
    assert(leaves[i] == evictor::leaf_at_turn(turn, tree_height as nat));
    evictor::lemma_leaf_at_turn(turn, tree_height as nat);
    if k < tree_height {
        law_leaf_at_turn_bits(turn, tree_height as nat, k);
    }
}

// The array.

/// The tree is as high as the base 2 logarithm of the size is greater than that
/// of the number of blocks of a bucket, each rounded up; it has one node if it
/// is not greater.
pub proof fn law_tree_height(size: nat, z: nat, log_size: nat, log_z: nat)
    requires
        size <= pow2(log_size),
        log_size > 0 ==> pow2((log_size - 1) as nat) < size,
        z <= pow2(log_z),
        log_z > 0 ==> pow2((log_z - 1) as nat) < z,
    ensures
        path_oram::tree_height(size, z) == if log_size >= log_z {
            log_size - log_z
        } else {
            0
        },
{
    path_oram::lemma_log2_ceil(size, log_size);
    path_oram::lemma_log2_ceil(z, log_z);
}

/// Whether `stash1` and `nodes1` are what an eviction to the branch of `leaf`
/// makes of `stash0` and `nodes0`: the evictor is given the whole stash and the
/// buckets from the leaf up to the root, what it makes of these takes their
/// place, and every other bucket stays.
pub open spec fn is_evicted<
    const VALUE_SIZE: usize,
    const Z: usize,
    const N: usize,
    E: Evictor<VALUE_SIZE, Z, N>,
>(
    evictor: E,
    stash0: Seq<Slot>,
    nodes0: Seq<Seq<Slot>>,
    stash1: Seq<Slot>,
    nodes1: Seq<Seq<Slot>>,
    leaf: u64,
) -> bool {
    let (s, b) = evictor.evicted(stash0, line(nodes0, leaf), leaf);
    &&& stash1 == s
    &&& nodes1.len() == nodes0.len()
    &&& forall|j: int|
        0 <= j <= tree::height(leaf as nat) ==> nodes1[(leaf as nat / #[trigger] pow2(
            j as nat,
        )) as int] == b[j]
    &&& forall|t: int|
        0 <= t < nodes0.len() && !is_on_line(t, leaf) ==> #[trigger] nodes1[t] == nodes0[t]
}

/// Whether `stash1` and `nodes1` are what becomes of `stash0` and `nodes0` once
/// the block of `item`'s number is taken out of the branch of `leaf` and out of
/// the stash, and `item` is put into the stash.
pub open spec fn is_put(
    stash0: Seq<Slot>,
    nodes0: Seq<Seq<Slot>>,
    stash1: Seq<Slot>,
    nodes1: Seq<Seq<Slot>>,
    leaf: u64,
    item: Slot,
) -> bool {
    let b = packing::branch_removed(line(nodes0, leaf), item.block_num);
    &&& stash1 == model::inserted(model::removed(stash0, item.block_num), item)
    &&& nodes1.len() == nodes0.len()
    &&& forall|j: int|
        0 <= j <= tree::height(leaf as nat) ==> nodes1[(leaf as nat / #[trigger] pow2(
            j as nat,
        )) as int] == b[j]
    &&& forall|t: int|
        0 <= t < nodes0.len() && !is_on_line(t, leaf) ==> #[trigger] nodes1[t] == nodes0[t]
}

proof fn lemma_is_evicted<
    const VALUE_SIZE: usize,
    const Z: usize,
    const N: usize,
    E: Evictor<VALUE_SIZE, Z, N>,
>(evictor: E, stash: Seq<Slot>, nodes: Seq<Seq<Slot>>, leaf: u64)
    requires
        0 < leaf < nodes.len(),
    ensures
        ({
            let (s, n) = path_oram::evict_branch::<VALUE_SIZE, Z, N, E>(
                evictor,
                stash,
                nodes,
                leaf,
            );
            is_evicted::<VALUE_SIZE, Z, N, E>(evictor, stash, nodes, s, n, leaf)
        }),
{
    law_checkout_gives_line(nodes, leaf);
    let b = evictor.evicted(stash, storage::branch_of(nodes, leaf), leaf).1;
    law_checkin_puts_line(nodes, leaf, b);
}

proof fn lemma_tree_len<
    const VALUE_SIZE: usize,
    const Z: usize,
    const N: usize,
    E: Evictor<VALUE_SIZE, Z, N>,
>(evictor: E, stash: Seq<Slot>, nodes: Seq<Seq<Slot>>, leaves: Seq<u64>, k: int)
    ensures
        path_oram::evict_branches::<VALUE_SIZE, Z, N, E>(
            evictor,
            stash,
            nodes,
            leaves,
            k,
        ).1.len() == nodes.len(),
    decreases k,
{
    if k > 0 {
        lemma_tree_len::<VALUE_SIZE, Z, N, E>(evictor, stash, nodes, leaves, k - 1);
    }
}

impl<
    const VALUE_SIZE: usize,
    const Z: usize,
    const N: usize,
    S: ORAMStorage<VALUE_SIZE, Z>,
    P: PositionMap,
    R: NodeRng,
    E: Evictor<VALUE_SIZE, Z, N>,
> PathORAM<VALUE_SIZE, Z, N, S, P, R, E> {
    /// An access puts the block into the stash, and then evicts the stash to
    /// the branch that the block was on and to every branch that was chosen, in
    /// order: whatever the leaf, what the evictor makes of the stash and the
    /// branch is what they are after the visit. The result is the state before
    /// every eviction and after the last one.
    pub proof fn law_access_evicts_to_every_branch(
        &self,
        before: &Self,
        key: u64,
        old_pos: u64,
        new_pos: u64,
        leaves: Seq<u64>,
    ) -> (states: (Seq<Seq<Slot>>, Seq<Seq<Seq<Slot>>>))
        requires
            before.wf(),
            self.accessed_from(before, key, old_pos, new_pos, leaves),
        ensures
            leaves.len() == N,
            states.0.len() == N + 2,
            states.1.len() == N + 2,
            is_put(
                before.stash(),
                before.nodes(),
                states.0[0],
                states.1[0],
                old_pos,
                (Slot { leaf_num: new_pos, block_num: key, data: self@[key as int] }),
            ),
            forall|i: int|
                0 <= i <= N ==> is_evicted::<VALUE_SIZE, Z, N, E>(
                    self.evictor(),
                    #[trigger] states.0[i],
                    states.1[i],
                    states.0[i + 1],
                    states.1[i + 1],
                    if i == 0 {
                        old_pos
                    } else {
                        leaves[i - 1]
                    },
                ),
            states.0[N + 1] == self.stash(),
            states.1[N + 1] == self.nodes(),
    {
        let e = self.evictor();
        let item = Slot { leaf_num: new_pos, block_num: key, data: self@[key as int] };
        let (s, n) = path_oram::stash_block(before.stash(), before.nodes(), old_pos, item);
        let all = seq![old_pos] + leaves;
        self.law_access_evicts(before, key, old_pos, new_pos, leaves);
        before.lemma_nodes();
        tree::lemma_height_bounds(old_pos as nat);
        law_checkout_gives_line(before.nodes(), old_pos);
        law_checkin_puts_line(
            before.nodes(),
            old_pos,
            packing::branch_removed(storage::branch_of(before.nodes(), old_pos), key),
        );
        let stashes = Seq::new(
            (N + 2) as nat,
            |i: int| path_oram::evict_branches::<VALUE_SIZE, Z, N, E>(e, s, n, all, i).0,
        );
        let trees = Seq::new(
            (N + 2) as nat,
            |i: int| path_oram::evict_branches::<VALUE_SIZE, Z, N, E>(e, s, n, all, i).1,
        );
        assert forall|i: int| 0 <= i <= N implies is_evicted::<VALUE_SIZE, Z, N, E>(
            e,
            #[trigger] stashes[i],
            trees[i],
            stashes[i + 1],
            trees[i + 1],
            if i == 0 {
                old_pos
            } else {
                leaves[i - 1]
            },
        ) by {
            let w = all[i];
            assert(w == if i == 0 {
                old_pos
            } else {
                leaves[i - 1]
            });
            assert(tree::is_leaf(w, before.height()));
            tree::lemma_height_bounds(w as nat);
            lemma_tree_len::<VALUE_SIZE, Z, N, E>(e, s, n, all, i);
            lemma_is_evicted::<VALUE_SIZE, Z, N, E>(e, stashes[i], trees[i], w);
        }
        (stashes, trees)
    }

    /// An access asks storage to check out and in the branch that the block was
    /// on, and then each of the chosen ones, and asks nothing else. It writes
    /// the position map once: the new leaf for the key that is accessed.
    pub proof fn law_access_asks(
        &self,
        before: &Self,
        key: u64,
        old_pos: u64,
        new_pos: u64,
        leaves: Seq<u64>,
        i: int,
    )
        requires
            self.accessed_from(before, key, old_pos, new_pos, leaves),
            0 <= i <= N,
        ensures
            ({
                let len = before.calls().len();
                let leaf = if i == 0 {
                    old_pos
                } else {
                    leaves[i - 1]
                };
                &&& leaves.len() == N
                &&& self.calls().len() == len + 2 * N + 2
                &&& self.calls().take(len as int) == before.calls()
                &&& self.calls()[len + 2 * i] == StorageCall::Checkout(leaf)
                &&& self.calls()[len + 2 * i + 1] == StorageCall::Checkin(leaf)
            }),
            self.writes() == before.writes().push(
                (PositionWrite { key, new_val: new_pos, old_val: old_pos }),
            ),
            before.positions().contains_key(key) ==> old_pos == before.positions()[key],
    {
        let all = seq![old_pos] + leaves;
        let asked = storage::visits(all);
        assert(asked[2 * i] == StorageCall::Checkout(all[i]));
        assert(asked[2 * i + 1] == StorageCall::Checkin(all[i]));
        assert(self.calls().take(before.calls().len() as int) =~= before.calls());
    }

    /// Between accesses every block of the tree stands in a node on the way from
    /// the root to the leaf that it travels to, and that leaf is the one that
    /// the position map has for it.
    pub proof fn law_where_blocks_stand(&self, t: int, i: int)
        requires
            self.wf(),
            0 <= t < self.nodes().len(),
            0 <= i < self.nodes()[t].len(),
            self.nodes()[t][i].leaf_num != 0,
        ensures
            t >= 1,
            exists|e: nat| self.nodes()[t][i].leaf_num as nat / #[trigger] pow2(e) == t,
            self.positions().contains_key(self.nodes()[t][i].block_num),
            self.positions()[self.nodes()[t][i].block_num] == self.nodes()[t][i].leaf_num,
    {
        let x = self.nodes()[t][i];
        self.law_blocks();
        assert(!self.nodes()[t][i].vacant());
        law_is_ancestor_drops_bits(t as nat, x.leaf_num as nat);
        assert(self.nodes()[t].contains(x));
        model::lemma_live_contains(self.nodes()[t], x);
        model::lemma_live_in_contains(self.nodes(), x);
        assert(self.blocks().count(x) > 0);
    }

    /// The value of a key is the data of the block of that number, wherever it
    /// is; if there is no such block, its bytes are all zero.
    pub proof fn law_values_are_in_blocks(&self, key: u64)
        requires
            self.wf(),
            key < self.size(),
        ensures
            self@.len() == self.size(),
            forall|x: Slot|
                #![trigger self.blocks().count(x)]
                self.blocks().count(x) > 0 && x.block_num == key ==> self@[key as int] == x.data,
            (forall|x: Slot|
                #![trigger self.blocks().count(x)]
                self.blocks().count(x) > 0 ==> x.block_num != key) ==> self@[key as int].len()
                == VALUE_SIZE && forall|i: int|
                0 <= i < VALUE_SIZE ==> #[trigger] self@[key as int][i] == 0,
    {
        self.law_blocks();
        assert forall|x: Slot|
            #![trigger self.blocks().count(x)]
            self.blocks().count(x) > 0 && x.block_num == key implies self@[key as int]
            == x.data by {
            contents::lemma_content_is(self.blocks(), self.positions(), x, VALUE_SIZE as nat);
        }
        if forall|x: Slot|
            #![trigger self.blocks().count(x)]
            self.blocks().count(x) > 0 ==> x.block_num != key {
            assert forall|x: Slot| !contents::is_block(self.blocks(), key, x) by {}
        }
    }
}

impl<
    const VALUE_SIZE: usize,
    const Z: usize,
    const N: usize,
    S: ORAMStorage<VALUE_SIZE, Z>,
    P: PositionMap,
    R: NodeRng,
    Q: NodeRng,
> PathORAM<VALUE_SIZE, Z, N, S, P, R, evictor::PathOramEvict<Q>> {
    /// After an access with the evictor of Path ORAM, no block of the stash may
    /// stand in a bucket with a vacant slot on the branch that was visited
    /// last, and no block on that branch may stand in such a bucket closer to
    /// the leaf.
    pub proof fn law_path_access_leaves_no_place(
        &self,
        before: &Self,
        key: u64,
        old_pos: u64,
        new_pos: u64,
        leaves: Seq<u64>,
    )
        requires
            before.wf(),
            self.accessed_from(before, key, old_pos, new_pos, leaves),
        ensures
            ({
                let last = if N == 0 {
                    old_pos
                } else {
                    leaves[N - 1]
                };
                is_greedy(self.stash(), line(self.nodes(), last), last)
            }),
    {
        let last = if N == 0 {
            old_pos
        } else {
            leaves[N - 1]
        };
        let (stashes, trees) = self.law_access_evicts_to_every_branch(
            before,
            key,
            old_pos,
            new_pos,
            leaves,
        );
        let e = self.evictor();
        let s0 = stashes[N as int];
        let b0 = line(trees[N as int], last);
        assert(is_evicted::<VALUE_SIZE, Z, N, evictor::PathOramEvict<Q>>(
            e,
            s0,
            trees[N as int],
            self.stash(),
            self.nodes(),
            last,
        ));
        assert(last != 0);
        law_path_eviction_leaves_no_place::<VALUE_SIZE, Z, N, Q>(e, s0, b0, last);
        let b1 = Evictor::<VALUE_SIZE, Z, N>::evicted(&e, s0, b0, last).1;
        assert forall|j: int| 0 <= j < b1.len() implies line(self.nodes(), last)[j] == b1[j] by {
            assert(self.nodes()[(last as nat / pow2(j as nat)) as int] == b1[j]);
        }
        assert(line(self.nodes(), last) =~= b1);
    }
}

} // verus!
