//! Trees over an arena: which are sound, and how many nodes they have.
//!
//! A quantifier holds a handle, the index of its operand in the arena. The
//! arena only grows at its end, and an operand is complete before it enters,
//! so the node at a handle can only refer to the part of the arena before it.
//! The definitions here follow a handle into exactly that part.

use vstd::prelude::*;
use crate::ast::Pattern;

verus! {

/// Every handle in `tree` refers to a node of `arena`, and so on through the
/// nodes referred to, each of them read against the part of the arena that
/// lies before it.
pub open spec fn well_formed(tree: Pattern, arena: Seq<Pattern>) -> bool
    decreases arena.len(), tree,
{
    match tree {
        Pattern::Char(_) => true,
        Pattern::Any(h) | Pattern::Many(h) => {
            &&& 0 <= h < arena.len()
            &&& well_formed(arena[h], arena.take(h))
        },
        Pattern::Multi(items) => forall|i: int|
            0 <= i < items.len() ==> well_formed(#[trigger] items[i], arena),
    }
}

/// Every node of `arena` is well formed against the nodes before it.
pub open spec fn arena_well_formed(arena: Seq<Pattern>) -> bool {
    forall|h: int| 0 <= h < arena.len() ==> well_formed(#[trigger] arena[h], arena.take(h))
}

/// Every sequence written in `tree` has two items at least.
pub open spec fn proper(tree: Pattern) -> bool
    decreases tree,
{
    match tree {
        Pattern::Multi(items) => {
            &&& items.len() >= 2
            &&& forall|i: int| 0 <= i < items.len() ==> proper(#[trigger] items[i])
        },
        _ => true,
    }
}

/// Every sequence written in a node of `arena` has two items at least.
pub open spec fn arena_proper(arena: Seq<Pattern>) -> bool {
    forall|h: int| 0 <= h < arena.len() ==> proper(#[trigger] arena[h])
}

/// The number of nodes of `tree`, the operands of its quantifiers included.
pub open spec fn node_count(tree: Pattern, arena: Seq<Pattern>) -> nat
    decreases arena.len(), tree,
{
    match tree {
        Pattern::Char(_) => 1,
        Pattern::Any(h) | Pattern::Many(h) => if 0 <= h < arena.len() {
            1 + node_count(arena[h], arena.take(h))
        } else {
            1
        },
        Pattern::Multi(items) => 1 + total_count(items, arena),
    }
}

/// The number of nodes of all of `trees` together.
pub open spec fn total_count(trees: Seq<Pattern>, arena: Seq<Pattern>) -> nat
    decreases arena.len(), trees,
{
    if trees.len() == 0 {
        0
    } else {
        total_count(trees.drop_last(), arena) + node_count(trees.last(), arena)
    }
}

/// A tree that is well formed against an arena is so against any arena that
/// begins with it, and has as many nodes there.
pub proof fn lemma_arena_grows(tree: Pattern, arena: Seq<Pattern>, longer: Seq<Pattern>)
    requires
        well_formed(tree, arena),
        arena.len() <= longer.len(),
        longer.take(arena.len() as int) == arena,
    ensures
        well_formed(tree, longer),
        node_count(tree, longer) == node_count(tree, arena),
    decreases tree,
{
    match tree {
        Pattern::Char(_) => {},
        Pattern::Any(h) | Pattern::Many(h) => {
            assert(longer[h] == longer.take(arena.len() as int)[h]);
            assert(longer.take(h) =~= arena.take(h));
        },
        Pattern::Multi(items) => {
            assert forall|i: int| 0 <= i < items.len() implies well_formed(
                #[trigger] items[i],
                longer,
            ) by {
                lemma_arena_grows(items[i], arena, longer);
            }
            lemma_total_arena_grows(items, arena, longer);
        },
    }
}

/// The same of several trees.
pub proof fn lemma_total_arena_grows(trees: Seq<Pattern>, arena: Seq<Pattern>, longer: Seq<Pattern>)
    requires
        forall|i: int| 0 <= i < trees.len() ==> well_formed(#[trigger] trees[i], arena),
        arena.len() <= longer.len(),
        longer.take(arena.len() as int) == arena,
    ensures
        total_count(trees, longer) == total_count(trees, arena),
    decreases trees,
{
    if trees.len() > 0 {
        lemma_total_arena_grows(trees.drop_last(), arena, longer);
        lemma_arena_grows(trees.last(), arena, longer);
    }
}

/// A tree has no more nodes than the trees it stands among.
pub proof fn lemma_total_bounds_each(trees: Seq<Pattern>, arena: Seq<Pattern>, i: int)
    requires
        0 <= i < trees.len(),
    ensures
        node_count(trees[i], arena) <= total_count(trees, arena),
        total_count(trees.take(i), arena) + node_count(trees[i], arena) == total_count(
            trees.take(i + 1),
            arena,
        ),
        total_count(trees.take(i + 1), arena) <= total_count(trees, arena),
    decreases trees.len(),
{
    assert(trees.take(i + 1).drop_last() =~= trees.take(i));
    assert(trees.take(i + 1).last() == trees[i]);
    if i == trees.len() - 1 {
        assert(trees.take(i + 1) =~= trees);
    } else {
        let front = trees.drop_last();
        lemma_total_bounds_each(front, arena, i);
        assert(front.take(i) =~= trees.take(i));
        assert(front.take(i + 1) =~= trees.take(i + 1));
    }
}

} // verus!
