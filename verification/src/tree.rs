//! Indices of the nodes of a complete binary tree.
//!
//! The root is node 1, and the children of node `n` are `2 * n` and
//! `2 * n + 1`. Node 0 does not exist: it stands for "none".
use balanced_tree_index::TreeIndex;
use vstd::arithmetic::power2::*;
use vstd::prelude::*;

verus! {

/// The number of steps from the root down to `node`.
pub open spec fn height(node: nat) -> nat
    decreases node,
{
    if node <= 1 {
        0
    } else {
        1 + height(node / 2)
    }
}

/// The node that is reached from `node` by going up `i` times.
pub open spec fn ancestor(node: nat, i: nat) -> nat
    decreases i,
{
    if i == 0 {
        node
    } else {
        ancestor(node / 2, (i - 1) as nat)
    }
}

/// Whether `top` lies on the way from `node` up to the root, `node` itself
/// counted.
pub open spec fn is_ancestor(top: nat, node: nat) -> bool
    decreases node,
{
    top >= 1 && (top == node || (top < node && is_ancestor(top, node / 2)))
}

/// The lowest node that lies above both `a` and `b`, each counted as above
/// itself.
pub open spec fn common_ancestor(a: nat, b: nat) -> nat
    decreases a + b,
{
    if a == b || a == 0 || b == 0 {
        a
    } else if a > b {
        common_ancestor(a / 2, b)
    } else {
        common_ancestor(a, b / 2)
    }
}

/// Whether `node` is one of the nodes of height `tree_height`.
pub open spec fn is_leaf(node: u64, tree_height: nat) -> bool {
    node != 0 && height(node as nat) == tree_height
}

/// The `bits` low bits of `x`, in the opposite order.
pub open spec fn reversed_bits(x: nat, bits: nat) -> nat
    decreases bits,
{
    if bits == 0 {
        0
    } else {
        (if x % 2 == 0 {
            0
        } else {
            pow2((bits - 1) as nat)
        }) + reversed_bits(x / 2, (bits - 1) as nat)
    }
}

/// The nodes of height `h` are the numbers from `2^h` up to `2^(h+1)`.
pub proof fn lemma_height_bounds(node: nat)
    requires
        node >= 1,
    ensures
        pow2(height(node)) <= node < pow2(height(node) + 1),
    decreases node,
{
    if node == 1 {
        lemma2_to64();
    } else {
        lemma_height_bounds(node / 2);
        lemma_pow2_unfold(height(node));
        lemma_pow2_unfold(height(node) + 1);
    }
}

/// A node index of 64 bits has a height below 64.
pub proof fn lemma_height_u64(node: u64)
    requires
        node != 0,
    ensures
        height(node as nat) < 64,
{
    lemma_height_bounds(node as nat);
    lemma2_to64_rest();
    if height(node as nat) > 64 {
        lemma_pow2_strictly_increases(64, height(node as nat));
    }
}

pub proof fn lemma_height_from_bounds(node: nat, h: nat)
    requires
        pow2(h) <= node < pow2(h + 1),
    ensures
        node >= 1,
        height(node) == h,
{
    lemma_pow2_pos(h);
    lemma_height_bounds(node);
    let k = height(node);
    if k < h {
        if k + 1 < h {
            lemma_pow2_strictly_increases(k + 1, h);
        }
    } else if h < k {
        if h + 1 < k {
            lemma_pow2_strictly_increases(h + 1, k);
        }
    }
}

pub proof fn lemma_ancestor_step(node: nat, i: nat)
    ensures
        ancestor(node, i + 1) == ancestor(node, i) / 2,
    decreases i,
{
    reveal_with_fuel(ancestor, 2);
    if i > 0 {
        lemma_ancestor_step(node / 2, (i - 1) as nat);
    }
}

/// Going up `i` times lowers the height by `i`.
pub proof fn lemma_ancestor_height(node: nat, i: nat)
    requires
        node >= 1,
        i <= height(node),
    ensures
        ancestor(node, i) >= 1,
        height(ancestor(node, i)) == height(node) - i,
        is_ancestor(ancestor(node, i), node),
    decreases i,
{
    if i > 0 {
        lemma_ancestor_height(node / 2, (i - 1) as nat);
        lemma_ancestor_bounds(ancestor(node, i), node / 2);
    }
}

pub proof fn lemma_ancestor_bounds(top: nat, node: nat)
    requires
        is_ancestor(top, node),
    ensures
        1 <= top <= node,
        height(top) <= height(node),
    decreases node,
{
    if top != node {
        lemma_ancestor_bounds(top, node / 2);
    }
}

/// The nodes above a node are the ones reached by going up from it.
pub proof fn lemma_is_ancestor_at(top: nat, node: nat)
    requires
        top >= 1,
        node >= 1,
    ensures
        is_ancestor(top, node) <==> (height(top) <= height(node) && top == ancestor(
            node,
            (height(node) - height(top)) as nat,
        )),
    decreases node,
{
    if is_ancestor(top, node) {
        lemma_ancestor_bounds(top, node);
        if top != node {
            lemma_is_ancestor_at(top, node / 2);
            lemma_ancestor_bounds(top, node / 2);
        }
    } else if height(top) <= height(node) {
        lemma_ancestor_height(node, (height(node) - height(top)) as nat);
    }
}

/// What lies above both nodes is exactly what lies above their common ancestor.
pub proof fn lemma_common_ancestor(a: nat, b: nat, top: nat)
    requires
        a >= 1,
        b >= 1,
    ensures
        common_ancestor(a, b) >= 1,
        is_ancestor(common_ancestor(a, b), a),
        is_ancestor(common_ancestor(a, b), b),
        is_ancestor(top, common_ancestor(a, b)) <==> (is_ancestor(top, a) && is_ancestor(top, b)),
    decreases a + b,
{
    if a == b {
    } else if a > b {
        lemma_common_ancestor(a / 2, b, top);
        lemma_ancestor_bounds(common_ancestor(a, b), a / 2);
        if is_ancestor(top, a / 2) {
            lemma_ancestor_bounds(top, a / 2);
        }
        if is_ancestor(top, b) {
            lemma_ancestor_bounds(top, b);
        }
    } else {
        lemma_common_ancestor(a, b / 2, top);
        lemma_ancestor_bounds(common_ancestor(a, b), b / 2);
        if is_ancestor(top, b / 2) {
            lemma_ancestor_bounds(top, b / 2);
        }
        if is_ancestor(top, a) {
            lemma_ancestor_bounds(top, a);
        }
    }
}

/// The node `i` steps above `leaf` lies above `query` if and only if it is at
/// or above the common ancestor of the two.
pub proof fn lemma_ancestor_of_query(leaf: nat, query: nat, i: nat)
    requires
        leaf >= 1,
        query >= 1,
        i <= height(leaf),
    ensures
        height(common_ancestor(leaf, query)) <= height(leaf),
        is_ancestor(ancestor(leaf, i), query) <==> i >= height(leaf) - height(
            common_ancestor(leaf, query),
        ),
{
    let c = common_ancestor(leaf, query);
    let top = ancestor(leaf, i);
    lemma_common_ancestor(leaf, query, top);
    lemma_ancestor_bounds(c, leaf);
    lemma_ancestor_height(leaf, i);
    if i >= height(leaf) - height(c) {
        lemma_is_ancestor_at(c, leaf);
        let below = (height(leaf) - height(c)) as nat;
        lemma_ancestor_sum(leaf, below, (i - below) as nat);
        lemma_ancestor_height(c, (i - below) as nat);
    } else if is_ancestor(top, query) {
        lemma_ancestor_bounds(top, c);
    }
}

pub proof fn lemma_ancestor_sum(node: nat, i: nat, j: nat)
    ensures
        ancestor(node, i + j) == ancestor(ancestor(node, i), j),
    decreases i,
{
    if i > 0 {
        lemma_ancestor_sum(node / 2, (i - 1) as nat, j);
    }
}

pub proof fn lemma_reversed_bits_bound(x: nat, bits: nat)
    ensures
        reversed_bits(x, bits) < pow2(bits),
    decreases bits,
{
    lemma2_to64();
    if bits > 0 {
        lemma_reversed_bits_bound(x / 2, (bits - 1) as nat);
        lemma_pow2_unfold(bits);
    }
}

/// The height of a node of the tree.
///
/// Calls `balanced_tree_index::TreeIndex::height` of `u64`, which counts the
/// binary digits of the index but the first; it is not to be called on 0.
#[verifier::external_body]
pub(crate) fn node_height(node: u64) -> (h: u32)
    requires
        node != 0,
    ensures
        h == height(node as nat),
{
    node.height()
}

/// The height of the lowest node above both arguments.
///
/// Calls `balanced_tree_index::TreeIndex::common_ancestor_height` of `u64`,
/// which is not to be called on 0.
#[verifier::external_body]
pub(crate) fn common_ancestor_height(a: u64, b: u64) -> (h: u32)
    requires
        a != 0,
        b != 0,
    ensures
        h == height(common_ancestor(a as nat, b as nat)),
{
    a.common_ancestor_height(&b)
}

/// Reverses the order of the `num_bits` low bits of `input`; the other bits of
/// `input` are dropped.
pub fn bit_reverse(input: u64, num_bits: u32) -> (output: u64)
    requires
        num_bits <= 64,
    ensures
        output == reversed_bits(input as nat, num_bits as nat),
        output < pow2(num_bits as nat),
{
    proof {
        lemma_reversed_bits_bound(input as nat, num_bits as nat);
        lemma2_to64();
        lemma2_to64_rest();
    }
    if num_bits == 0 {
        return 0;
    }
    let mut rest: u64 = input;
    let mut left: u32 = num_bits;
    let mut weight: u64 = power_of_two(num_bits - 1);
    let mut output: u64 = 0;
    while left > 0
        invariant
            left <= num_bits <= 64,
            left > 0 ==> weight == pow2((left - 1) as nat),
            output + reversed_bits(rest as nat, left as nat) == reversed_bits(
                input as nat,
                num_bits as nat,
            ),
            reversed_bits(input as nat, num_bits as nat) <= u64::MAX,
        decreases left,
    {
        let bit: u64 = rest % 2;
        proof {
            let p = weight as int;
            assert(bit * p == if bit == 0 { 0 } else { p }) by (nonlinear_arith)
                requires
                    bit == 0 || bit == 1,
            ;
            if left > 1 {
                lemma_pow2_unfold((left - 1) as nat);
            }
        }
        output = output + bit * weight;
        rest = rest / 2;
        weight = weight / 2;
        left = left - 1;
    }
    output
}

/// Two to the power of `exponent`.
pub fn power_of_two(exponent: u32) -> (power: u64)
    requires
        exponent < 64,
    ensures
        power == pow2(exponent as nat),
{
    let power: u64 = 1u64 << exponent;
    proof {
        lemma2_to64();
        lemma2_to64_rest();
        lemma_pow2_fits(exponent as nat);
        vstd::bits::lemma_u64_shl_is_mul(1, exponent as u64);
    }
    power
}

pub proof fn lemma_pow2_fits(e: nat)
    requires
        e < 64,
    ensures
        0 < pow2(e) <= 0x8000_0000_0000_0000,
{
    lemma_pow2_pos(e);
    lemma2_to64();
    lemma2_to64_rest();
    if e < 63 {
        lemma_pow2_strictly_increases(e, 63);
    }
}

} // verus!
