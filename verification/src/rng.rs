//! Randomness, in the one form in which it is needed: a random node below a
//! given one.
use crate::tree;
use balanced_tree_index::TreeIndex;
use rand_core::OsRng;
use vstd::prelude::*;

verus! {

/// The generator of the operating system.
#[verifier::external_type_specification]
#[verifier::external_body]
pub struct ExOsRng(rand_core::OsRng);

/// A draw: the node that was drawn, of height `tree_height` at or below
/// `node`.
pub struct Draw {
    pub node: u64,
    pub tree_height: u32,
    pub child: u64,
}

/// A cryptographically secure random number generator that draws nodes of a
/// tree.
///
/// What is proved holds of whatever nodes are drawn; that they are drawn
/// uniformly, and cannot be foretold, is up to the generator.
pub trait NodeRng: Sized {
    /// What was drawn so far, in order. It is left open where an implementation
    /// does not say.
    open spec fn drawn(&self) -> Seq<Draw> {
        arbitrary::<spec_fn(Self) -> Seq<Draw>>()(*self)
    }

    /// A random node of height `tree_height` at or below `node`.
    fn random_child_at_height(&mut self, node: u64, tree_height: u32) -> (child: u64)
        requires
            node != 0,
            tree::height(node as nat) <= tree_height < 64,
        ensures
            tree::is_leaf(child, tree_height as nat),
            tree::is_ancestor(node as nat, child as nat),
            final(self).drawn() == old(self).drawn().push((Draw { node, tree_height, child })),
    ;
}

/// The generator of the operating system, with a record of what was drawn from
/// it.
pub struct SystemRng {
    rng: OsRng,
    drawn: Ghost<Seq<Draw>>,
}

impl SystemRng {
    /// The generator, with nothing drawn yet.
    pub fn new(rng: OsRng) -> (system: Self)
        ensures
            system.drawn() == Seq::<Draw>::empty(),
            system.inner() == rng,
    {
        SystemRng { rng, drawn: Ghost(Seq::empty()) }
    }

    /// The generator without the record.
    pub closed spec fn inner(&self) -> OsRng {
        self.rng
    }
}

impl NodeRng for SystemRng {
    closed spec fn drawn(&self) -> Seq<Draw> {
        self.drawn@
    }

    fn random_child_at_height(&mut self, node: u64, tree_height: u32) -> (child: u64) {
        let child: u64 = os_random_child_at_height(node, tree_height, &mut self.rng);
        self.drawn = Ghost(self.drawn@.push(Draw { node, tree_height, child }));
        child
    }
}

/// A random node of height `tree_height` at or below `node`.
///
/// Calls `balanced_tree_index::TreeIndex::random_child_at_height` of `u64`,
/// which appends random bits to the index. Which node it is depends on the
/// generator alone and is not stated. The call aborts if the operating system
/// has no randomness to give.
#[verifier::external_body]
fn os_random_child_at_height(node: u64, tree_height: u32, rng: &mut OsRng) -> (child: u64)
    requires
        node != 0,
        tree::height(node as nat) <= tree_height < 64,
    ensures
        tree::is_leaf(child, tree_height as nat),
        tree::is_ancestor(node as nat, child as nat),
{
    node.random_child_at_height(tree_height, rng)
}

} // verus!
