//! Tree geometry: height and in-order rank of a position in the growth tree.
//!
//! Positions use heap-style indexing: the root is 0 and a node at position
//! `p` has children at `2p + 1` and `2p + 2`.  The height of a position is
//! the number of halvings `p -> (p - 1) / 2` needed to reach the root; it is
//! the sole quantity the mutation engine orders synapses by, so these
//! functions carry exact contracts.

use vstd::prelude::*;

verus! {

/// Height of a heap position: 0 at the root, one more than the parent
/// everywhere else.
pub open spec fn spec_height(pos: int) -> nat
    recommends
        pos >= 0,
    decreases pos,
{
    if pos <= 0 {
        0
    } else {
        1 + spec_height((pos - 1) / 2)
    }
}

/// In-order rank of a heap position inside its level-ordered perfect tree:
/// 0 at the root; twice the parent's rank for a left child (odd position);
/// one more than that for a right child.
pub open spec fn spec_inorder(pos: int) -> nat
    recommends
        pos >= 0,
    decreases pos,
{
    if pos <= 0 {
        0
    } else if pos % 2 == 1 {
        2 * spec_inorder((pos - 1) / 2)
    } else {
        2 * spec_inorder((pos - 1) / 2) + 1
    }
}

/// Height of `position` within its growth tree: the number of heap-index
/// halvings needed to reach the root.
pub fn get_neuron_height(position: u8) -> (h: u32)
    ensures
        h == spec_height(position as int),
        h <= 8,
{
    let mut height: u32 = 0;
    let mut index: u32 = position as u32;
    proof {
        lemma_height_bound(position as int);
    }
    while index > 0
        invariant
            index <= 255,
            spec_height(position as int) == height + spec_height(index as int),
            height + spec_height(index as int) <= 8,
        decreases index,
    {
        index = (index - 1) / 2;
        height = height + 1;
    }
    height
}

/// Height grows by one per doubling of the position range; in particular
/// the height of any byte-range position is at most 8.
pub proof fn lemma_height_bound(pos: int)
    requires
        0 <= pos,
    ensures
        pos <= 0 ==> spec_height(pos) == 0,
        pos <= 2 ==> spec_height(pos) <= 1,
        pos <= 6 ==> spec_height(pos) <= 2,
        pos <= 14 ==> spec_height(pos) <= 3,
        pos <= 30 ==> spec_height(pos) <= 4,
        pos <= 62 ==> spec_height(pos) <= 5,
        pos <= 126 ==> spec_height(pos) <= 6,
        pos <= 254 ==> spec_height(pos) <= 7,
        pos <= 510 ==> spec_height(pos) <= 8,
    decreases pos,
{
    if pos > 0 {
        lemma_height_bound((pos - 1) / 2);
    }
}

/// Law: both children of a position sit exactly one level below it.
pub proof fn lemma_height_of_children(p: int)
    requires
        0 <= p,
        2 * p + 2 <= 254,
    ensures
        spec_height(2 * p + 1) == spec_height(p) + 1,
        spec_height(2 * p + 2) == spec_height(p) + 1,
{
    assert((2 * p + 1 - 1) / 2 == p);
    assert((2 * p + 2 - 1) / 2 == p);
}

/// In-order rank of the position `id1` within a fixed-capacity perfect
/// binary tree, used for spatial layout of a genome.
pub fn get_inorder_position(id1: u16) -> (r: u16)
    ensures
        r == spec_inorder(id1 as int),
    decreases id1,
{
    if id1 == 0 {
        return 0;
    }
    let parent_id1: u16 = (id1 - 1) / 2;
    let is_left_child: bool = id1 % 2 == 1;
    let parent_position: u16 = get_inorder_position(parent_id1);
    proof {
        lemma_inorder_bound(parent_id1 as int);
    }
    if is_left_child {
        parent_position * 2
    } else {
        parent_position * 2 + 1
    }
}

/// The in-order rank of a position never exceeds the position itself, so
/// the rank of any `u16` position fits in a `u16`.
proof fn lemma_inorder_bound(pos: int)
    requires
        0 <= pos,
    ensures
        spec_inorder(pos) <= pos,
        pos >= 1 ==> spec_inorder(pos) <= pos - 1,
    decreases pos,
{
    if pos > 0 {
        lemma_inorder_bound((pos - 1) / 2);
    }
}

} // verus!
