//! Properties that relate several operations of the store.
use vstd::prelude::*;

use crate::block::{level_in_world, spec_dist2, BlockApprox, BlockLocation, BlockState};
use crate::blocks::WorldBlocks;
use crate::chunk::spec_chunk_of;
use crate::generate::floor_draw;

verus! {

/// A position reads back the state just written to it.
pub proof fn law_write_then_read(
    before: WorldBlocks,
    after: WorldBlocks,
    location: BlockLocation,
    block: BlockState,
)
    requires
        after.is_set_of(before, location, block),
        level_in_world(location.y as int),
    ensures
        after.block_model(location) == Some(BlockApprox::Realized(block)),
{
}

/// A write, at any level, never changes the answer at any other position
/// that already had one.
pub proof fn law_write_is_local(
    before: WorldBlocks,
    after: WorldBlocks,
    location: BlockLocation,
    block: BlockState,
    other: BlockLocation,
)
    requires
        after.is_set_of(before, location, block),
        other != location,
        before.block_model(other) is Some,
    ensures
        after.block_model(other) == before.block_model(other),
{
    if level_in_world(location.y as int) && spec_chunk_of(other) == spec_chunk_of(location)
        && !before.is_loaded_at(spec_chunk_of(location)) {
        // a placeholder answers only outside the vertical bound, and there
        // with air
        assert(!level_in_world(other.y as int));
    }
}

/// Outside the vertical bound every position reads as air, whatever is
/// stored, and whether or not its chunk is.
pub proof fn law_outside_bound_is_air(w: WorldBlocks, l: BlockLocation)
    requires
        !level_in_world(l.y as int),
    ensures
        w.block_model(l) == Some(BlockApprox::Realized(BlockState(0))),
{
}

/// The nearest-first listing holds the same positions as an unbounded
/// selection, ordered by non-decreasing distance.
pub proof fn law_nearest_first_is_sorted_selection<F: Fn(BlockState) -> bool>(
    w: WorldBlocks,
    f: F,
    origin: BlockLocation,
    listed: Seq<BlockLocation>,
    selection: Seq<BlockLocation>,
)
    requires
        w.is_nearest_first(f, origin, listed),
        w.is_selection(f, w.loaded_chunks(), selection),
    ensures
        listed.to_set() == selection.to_set(),
        listed.len() == selection.len(),
        forall|a: int, b: int|
            0 <= a < b < listed.len() ==> spec_dist2(origin, #[trigger] listed[a]) <= spec_dist2(
                origin,
                #[trigger] listed[b],
            ),
{
    assert(listed.to_set() =~= selection.to_set()) by {
        assert forall|l: BlockLocation| listed.to_set().contains(l) <==> selection.to_set().contains(l) by {
            assert(listed.contains(l) <==> selection.contains(l));
        }
    }
    listed.unique_seq_to_set();
    selection.unique_seq_to_set();
}

/// Two stores that answer alike answer alike after the floor of the same
/// seed is added to each.
pub proof fn law_same_seed_same_floor(
    before1: WorldBlocks,
    after1: WorldBlocks,
    before2: WorldBlocks,
    after2: WorldBlocks,
    seed: u64,
)
    requires
        forall|l: BlockLocation| #[trigger]
            after1.block_model(l) == before1.floor_model(|k: int| floor_draw(seed, k as nat), l),
        forall|l: BlockLocation| #[trigger]
            after2.block_model(l) == before2.floor_model(|k: int| floor_draw(seed, k as nat), l),
        forall|l: BlockLocation| #[trigger] before1.block_model(l) == before2.block_model(l),
    ensures
        forall|l: BlockLocation| #[trigger] after1.block_model(l) == after2.block_model(l),
{
    assert forall|l: BlockLocation| #[trigger] after1.block_model(l) == after2.block_model(l) by {
        // a chunk is loaded exactly where its positions at level 0 answer
        let ground = BlockLocation { y: 0, ..l };
        assert(spec_chunk_of(ground) == spec_chunk_of(l));
        assert(before1.block_model(ground) == before2.block_model(ground));
        assert(after1.block_model(l) == before1.floor_model(|k: int| floor_draw(seed, k as nat), l));
        assert(after2.block_model(l) == before2.floor_model(|k: int| floor_draw(seed, k as nat), l));
    }
}

} // verus!
