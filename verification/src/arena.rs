//! The store of suspended operations, as `generational_arena` keeps it.
//!
//! Everything in this file is a statement about `generational_arena::Arena`
//! that the verifier takes on trust. An index into the arena is a slot and
//! the generation in which the slot was filled; the arena counts a new
//! generation at every removal, which is why an index that was removed
//! never comes back.

use crate::ops::{Op, OpIndex};
use generational_arena::{Arena, Index};
use vstd::prelude::*;

verus! {

#[verifier::external_type_specification]
#[verifier::external_body]
#[verifier::reject_recursive_types(T)]
pub struct ExArena<T>(Arena<T>);

/// The operations that the arena holds, each under its index.
pub uninterp spec fn arena_items(a: Arena<Op>) -> Map<OpIndex, Op>;

/// The arena's generation counter: the number of removals so far.
pub uninterp spec fn arena_generation(a: Arena<Op>) -> u64;

/// `Arena::new`: an arena that holds nothing, in generation zero.
#[verifier::external_body]
pub(crate) fn arena_new() -> (arena: Arena<Op>)
    ensures
        forall|at: OpIndex| !(#[trigger] arena_items(arena).contains_key(at)),
        arena_generation(arena) == 0,
{
    Arena::new()
}

/// `Arena::insert`: stores `op` in a free slot and returns the slot with
/// the current generation. The slot held nothing, in any generation; all
/// other entries and the generation counter stay.
#[verifier::external_body]
pub(crate) fn arena_insert(a: &mut Arena<Op>, op: Op) -> (at: OpIndex)
    ensures
        at.generation == arena_generation(*old(a)),
        forall|other: OpIndex|
            other.index == at.index ==> !(#[trigger] arena_items(*old(a)).contains_key(other)),
        arena_items(*final(a)) == arena_items(*old(a)).insert(at, op),
        arena_generation(*final(a)) == arena_generation(*old(a)),
{
    let (index, generation) = a.insert(op).into_raw_parts();
    OpIndex { index, generation }
}

/// `Arena::remove`: where the arena holds an entry under `at`, takes it out,
/// returns it and counts a new generation; where it holds none, returns
/// `None` and changes nothing. Where it holds the entry, the counter must
/// have room for one more.
#[verifier::external_body]
pub(crate) fn arena_remove(a: &mut Arena<Op>, at: OpIndex) -> (op: Option<Op>)
    requires
        arena_items(*old(a)).contains_key(at) ==> arena_generation(*old(a)) < u64::MAX,
    ensures
        op is Some <==> arena_items(*old(a)).contains_key(at),
        op matches Some(x) ==> x == arena_items(*old(a))[at] && arena_items(*final(a))
            == arena_items(*old(a)).remove(at) && arena_generation(*final(a)) == arena_generation(
            *old(a),
        ) + 1,
        op is None ==> arena_items(*final(a)) == arena_items(*old(a)) && arena_generation(
            *final(a),
        ) == arena_generation(*old(a)),
{
    a.remove(Index::from_raw_parts(at.index, at.generation))
}

} // verus!
