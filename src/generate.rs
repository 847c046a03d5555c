//! Deterministic synthetic worlds, and writing a parsed structure into the
//! store.
use rand::rngs::StdRng;
use rand::distributions::Uniform;
use rand::{Rng, SeedableRng};

use vstd::prelude::*;

use crate::block::{level_in_world, BlockApprox, BlockLocation, BlockState};
use crate::blocks::WorldBlocks;
use crate::chunk::{spec_chunk_of, ChunkLocation};

verus! {

/// The seed of the generator behind `set_random_floor`.
pub const FLOOR_SEED: u64 = 12338971;

/// Half the side of the square that `set_random_floor` covers.
pub const FLOOR_RADIUS: i32 = 1000;

/// Half the side of the square that `flat` covers.
pub const FLAT_RADIUS: i32 = 100;

/// Number of cells of the random floor: the square of half side 1000.
pub const FLOOR_CELLS: usize = 4004001;

/// The `k`-th value, counting from 0, that the generator seeded with `seed`
/// draws uniformly from `0..5`.
pub uninterp spec fn floor_draw(seed: u64, k: nat) -> int;

/// Relies on rand's `SeedableRng::seed_from_u64` for `StdRng`,
/// `Uniform::new(0, 5)` and `Rng::sample_iter`: the first `n` values that
/// the generator seeded with `seed` draws from `0..5`, in order. The
/// generator's output depends on the seed alone.
#[verifier::external_body]
fn floor_draws(seed: u64, n: usize) -> (r: Vec<i32>)
    ensures
        r@.len() == n,
        forall|k: int| 0 <= k < n ==> #[trigger] r@[k] as int == floor_draw(seed, k as nat),
        forall|k: int| 0 <= k < n ==> 0 <= #[trigger] r@[k] < 5,
{
    StdRng::seed_from_u64(seed).sample_iter(Uniform::new(0i32, 5)).take(n).collect()
}

/// Whether `(x, z)` lies in the square of half side `radius` around the
/// origin.
pub open spec fn in_square(x: int, z: int, radius: int) -> bool {
    -radius <= x <= radius && -radius <= z <= radius
}

/// Whether chunk `c` meets the square of half side `radius` around the
/// origin, for a radius that is a multiple of 4 below 2^27.
pub open spec fn chunk_in_square(c: ChunkLocation, radius: int) -> bool {
    -radius / 16 <= c.0 <= radius / 16 && -radius / 16 <= c.1 <= radius / 16
}

/// What `flat` answers at `l`.
pub open spec fn flat_model(l: BlockLocation) -> Option<BlockApprox> {
    if !level_in_world(l.y as int) {
        Some(BlockApprox::Realized(BlockState(0)))
    } else if chunk_in_square(spec_chunk_of(l), 100) {
        if l.y == 0 && in_square(l.x as int, l.z as int, 100) {
            Some(BlockApprox::Realized(BlockState(16)))
        } else {
            Some(BlockApprox::Realized(BlockState(0)))
        }
    } else {
        None
    }
}

proof fn lemma_square_chunks(l: BlockLocation, radius: int)
    requires
        radius == 100 || radius == 1000,
        in_square(l.x as int, l.z as int, radius),
    ensures
        chunk_in_square(spec_chunk_of(l), radius),
{
    vstd::arithmetic::div_mod::lemma_div_is_ordered(-radius, l.x as int, 16);
    vstd::arithmetic::div_mod::lemma_div_is_ordered(l.x as int, radius, 16);
    vstd::arithmetic::div_mod::lemma_div_is_ordered(-radius, l.z as int, 16);
    vstd::arithmetic::div_mod::lemma_div_is_ordered(l.z as int, radius, 16);
}

impl WorldBlocks {
    /// What the store answers at `l` once every chunk that meets the square
    /// of half side `radius` is loaded: air in the chunks that were not.
    pub open spec fn with_square_loaded(&self, radius: int, l: BlockLocation) -> Option<BlockApprox> {
        if chunk_in_square(spec_chunk_of(l), radius) && !self.is_loaded_at(spec_chunk_of(l)) {
            Some(BlockApprox::Realized(BlockState(0)))
        } else {
            self.block_model(l)
        }
    }

    /// Loads every chunk that meets the square of half side `radius`.
    fn load_square(&mut self, radius: i32)
        requires
            old(self).wf(),
            radius == 100 || radius == 1000,
        ensures
            final(self).wf(),
            forall|c: ChunkLocation| chunk_in_square(c, radius as int) ==> #[trigger] final(self).is_loaded_at(c),
            forall|l: BlockLocation| #[trigger]
                final(self).block_model(l) == old(self).with_square_loaded(radius as int, l),
    {
        let lo = ChunkLocation::from_block(BlockLocation::new(-radius, 0, 0)).0;
        let hi = ChunkLocation::from_block(BlockLocation::new(radius, 0, 0)).0;
        let mut cx = lo;
        while cx <= hi
            invariant
                self.wf(),
                radius == 100 || radius == 1000,
                lo == -radius / 16,
                hi == radius / 16,
                lo <= cx <= hi + 1,
                forall|c: ChunkLocation|
                    chunk_in_square(c, radius as int) && c.0 < cx ==> #[trigger] self.is_loaded_at(c),
                forall|c: ChunkLocation|
                    !(chunk_in_square(c, radius as int) && c.0 < cx) ==> #[trigger] self.column(c) == old(self).column(c),
                forall|l: BlockLocation| #[trigger]
                    self.block_model(l) == if spec_chunk_of(l).0 < cx {
                        old(self).with_square_loaded(radius as int, l)
                    } else {
                        old(self).block_model(l)
                    },
            decreases hi + 1 - cx,
        {
            let mut cz = lo;
            while cz <= hi
                invariant
                    self.wf(),
                    radius == 100 || radius == 1000,
                    lo == -radius / 16,
                    hi == radius / 16,
                    lo <= cx <= hi,
                    lo <= cz <= hi + 1,
                    forall|c: ChunkLocation|
                        chunk_in_square(c, radius as int) && (c.0 < cx || (c.0 == cx && c.1 < cz))
                            ==> #[trigger] self.is_loaded_at(c),
                    forall|c: ChunkLocation|
                        !(chunk_in_square(c, radius as int) && (c.0 < cx || (c.0 == cx && c.1 < cz)))
                            ==> #[trigger] self.column(c) == old(self).column(c),
                    forall|l: BlockLocation| #[trigger]
                        self.block_model(l) == if spec_chunk_of(l).0 < cx || (spec_chunk_of(l).0
                            == cx && spec_chunk_of(l).1 < cz) {
                            old(self).with_square_loaded(radius as int, l)
                        } else {
                            old(self).block_model(l)
                        },
                decreases hi + 1 - cz,
            {
                let c = ChunkLocation(cx, cz);
                let ghost before = *self;
                self.make_loaded(c);
                proof {
                    assert(before.column(c) == old(self).column(c));
                    assert forall|d: ChunkLocation|
                        chunk_in_square(d, radius as int) && (d.0 < cx || (d.0 == cx && d.1 < cz + 1))
                            implies #[trigger] self.is_loaded_at(d) by {
                        if d != c {
                            assert(before.is_loaded_at(d));
                            assert(self.column(d) == before.column(d));
                        }
                    }
                    assert forall|d: ChunkLocation|
                        !(chunk_in_square(d, radius as int) && (d.0 < cx || (d.0 == cx && d.1 < cz + 1)))
                            implies #[trigger] self.column(d) == old(self).column(d) by {
                        assert(self.column(d) == before.column(d));
                    }
                    assert forall|l: BlockLocation| #[trigger]
                        self.block_model(l) == if spec_chunk_of(l).0 < cx || (spec_chunk_of(l).0
                            == cx && spec_chunk_of(l).1 < cz + 1) {
                            old(self).with_square_loaded(radius as int, l)
                        } else {
                            old(self).block_model(l)
                        } by {
                        if spec_chunk_of(l) != c {
                            assert(self.column(spec_chunk_of(l)) == before.column(spec_chunk_of(l)));
                        }
                    }
                }
                cz = cz + 1;
            }
            cx = cx + 1;
        }
    }

    /// A world that is solid at level 0 within 100 blocks of the origin on
    /// both horizontal axes; every other position of the chunks that this
    /// square meets is air, and all other chunks are unresolved inside the
    /// vertical bound.
    pub fn flat() -> (r: WorldBlocks)
        ensures
            r.wf(),
            forall|l: BlockLocation| #[trigger] r.block_model(l) == flat_model(l),
    {
        let mut world = WorldBlocks::new();
        world.load_square(FLAT_RADIUS);
        let ghost loaded = world;
        let mut x: i32 = -FLAT_RADIUS;
        while x <= FLAT_RADIUS
            invariant
                world.wf(),
                -100 <= x <= 101,
                forall|c: ChunkLocation| chunk_in_square(c, 100) ==> #[trigger] world.is_loaded_at(c),
                forall|l: BlockLocation| #[trigger]
                    world.block_model(l) == if l.y == 0 && in_square(l.x as int, l.z as int, 100)
                        && l.x < x {
                        Some(BlockApprox::Realized(BlockState(16)))
                    } else {
                        loaded.block_model(l)
                    },
            decreases 101 - x,
        {
            let mut z: i32 = -FLAT_RADIUS;
            while z <= FLAT_RADIUS
                invariant
                    world.wf(),
                    -100 <= x <= 100,
                    -100 <= z <= 101,
                    forall|c: ChunkLocation| chunk_in_square(c, 100) ==> #[trigger] world.is_loaded_at(c),
                    forall|l: BlockLocation| #[trigger]
                        world.block_model(l) == if l.y == 0 && in_square(l.x as int, l.z as int, 100)
                            && (l.x < x || (l.x == x && l.z < z)) {
                            Some(BlockApprox::Realized(BlockState(16)))
                        } else {
                            loaded.block_model(l)
                        },
                decreases 101 - z,
            {
                let loc = BlockLocation::new(x, 0, z);
                proof {
                    lemma_square_chunks(loc, 100);
                }
                let ghost before = world;
                world.set_block(loc, BlockState::stone());
                proof {
                    assert forall|c: ChunkLocation| chunk_in_square(c, 100) implies #[trigger] world.is_loaded_at(c) by {
                        if c != spec_chunk_of(loc) {
                            assert(before.is_loaded_at(c));
                            assert(world.column(c) == before.column(c));
                        }
                    }
                    assert(before.is_loaded_at(spec_chunk_of(loc)));
                }
                z = z + 1;
            }
            x = x + 1;
        }
        proof {
            assert forall|l: BlockLocation| #[trigger] world.block_model(l) == flat_model(l) by {
                if l.y == 0 && in_square(l.x as int, l.z as int, 100) {
                    lemma_square_chunks(l, 100);
                }
                crate::chunk::lemma_chunk_of_offsets(l);
            }
        }
        world
    }
}

/// The draw that decides the floor cell `(x, z)`: cells are drawn row by row
/// along `x`, and along `z` within a row.
pub open spec fn floor_index(x: int, z: int) -> int {
    (x + 1000) * 2001 + (z + 1000)
}

/// Whether the floor makes `l` solid, given the draw of each cell.
pub open spec fn floor_solid(draws: spec_fn(int) -> int, l: BlockLocation) -> bool {
    &&& l.y == 0
    &&& in_square(l.x as int, l.z as int, 1000)
    &&& (draws(floor_index(l.x as int, l.z as int)) == 0 || l == (BlockLocation { x: 0, y: 0, z: 0 })
        || l == (BlockLocation { x: 950, y: 0, z: 950 }))
}

impl WorldBlocks {
    /// What the store answers at `l` after a floor with the given draws is
    /// added to `self`.
    pub open spec fn floor_model(&self, draws: spec_fn(int) -> int, l: BlockLocation) -> Option<BlockApprox> {
        if floor_solid(draws, l) {
            Some(BlockApprox::Realized(BlockState(16)))
        } else {
            self.with_square_loaded(1000, l)
        }
    }

    /// Makes `(x, 0, z)` solid where `draw` is 0, and changes nothing
    /// otherwise. The chunk of that position must be loaded.
    fn place_floor_cell(&mut self, x: i32, z: i32, draw: i32)
        requires
            old(self).wf(),
            old(self).is_loaded_at(spec_chunk_of(BlockLocation { x, y: 0, z })),
        ensures
            final(self).wf(),
            forall|l: BlockLocation| #[trigger]
                final(self).block_model(l) == if draw == 0 && l == (BlockLocation { x, y: 0, z }) {
                    Some(BlockApprox::Realized(BlockState(16)))
                } else {
                    old(self).block_model(l)
                },
            forall|c: ChunkLocation| #[trigger] final(self).is_loaded_at(c) == old(self).is_loaded_at(c),
    {
        if draw == 0 {
            let loc = BlockLocation::new(x, 0, z);
            self.set_block(loc, BlockState::stone());
            proof {
                assert forall|c: ChunkLocation| #[trigger] self.is_loaded_at(c) == old(self).is_loaded_at(c) by {
                    if c != spec_chunk_of(loc) {
                        assert(self.column(c) == old(self).column(c));
                    }
                }
            }
        }
    }

    /// Adds a floor at level 0 to the square within 1000 blocks of the origin
    /// on both horizontal axes, from one draw per cell: the cell `(x, z)` is
    /// made solid where `draws[floor_index(x, z)]` is 0, and `(0, 0, 0)` and
    /// `(950, 0, 950)` are made solid whatever the draws. Every chunk that the
    /// square meets ends loaded; nothing else changes.
    pub fn apply_floor(&mut self, draws: &Vec<i32>)
        requires
            old(self).wf(),
            draws@.len() == FLOOR_CELLS,
        ensures
            final(self).wf(),
            forall|c: ChunkLocation| chunk_in_square(c, 1000) ==> #[trigger] final(self).is_loaded_at(c),
            forall|l: BlockLocation| #[trigger]
                final(self).block_model(l) == old(self).floor_model(|k: int| draws@[k] as int, l),
    {
        self.load_square(FLOOR_RADIUS);
        let ghost loaded = *self;
        let ghost dr = |k: int| draws@[k] as int;
        let mut k: usize = 0;
        let mut x: i32 = -FLOOR_RADIUS;
        while x <= FLOOR_RADIUS
            invariant
                self.wf(),
                draws@.len() == 4004001,
                dr == (|k: int| draws@[k] as int),
                -1000 <= x <= 1001,
                k == floor_index(x as int, -1000),
                forall|c: ChunkLocation| chunk_in_square(c, 1000) ==> #[trigger] self.is_loaded_at(c),
                forall|l: BlockLocation| #[trigger] loaded.block_model(l) == old(self).with_square_loaded(1000, l),
                forall|l: BlockLocation| #[trigger]
                    self.block_model(l) == if l.y == 0 && in_square(l.x as int, l.z as int, 1000)
                        && l.x < x && draws@[floor_index(l.x as int, l.z as int)] == 0 {
                        Some(BlockApprox::Realized(BlockState(16)))
                    } else {
                        loaded.block_model(l)
                    },
            decreases 1001 - x,
        {
            let mut z: i32 = -FLOOR_RADIUS;
            while z <= FLOOR_RADIUS
                invariant
                    self.wf(),
                    draws@.len() == 4004001,
                    -1000 <= x <= 1000,
                    -1000 <= z <= 1001,
                    k == floor_index(x as int, z as int),
                    forall|c: ChunkLocation| chunk_in_square(c, 1000) ==> #[trigger] self.is_loaded_at(c),
                    forall|l: BlockLocation| #[trigger]
                        self.block_model(l) == if l.y == 0 && in_square(l.x as int, l.z as int, 1000)
                            && (l.x < x || (l.x == x && l.z < z)) && draws@[floor_index(
                            l.x as int,
                            l.z as int,
                        )] == 0 {
                            Some(BlockApprox::Realized(BlockState(16)))
                        } else {
                            loaded.block_model(l)
                        },
                decreases 1001 - z,
            {
                proof {
                    lemma_square_chunks(BlockLocation { x, y: 0, z }, 1000);
                }
                let draw = draws[k];
                self.place_floor_cell(x, z, draw);
                k = k + 1;
                z = z + 1;
            }
            x = x + 1;
        }
        let origin = BlockLocation::new(0, 0, 0);
        let anchor = BlockLocation::new(950, 0, 950);
        proof {
            lemma_square_chunks(origin, 1000);
            lemma_square_chunks(anchor, 1000);
        }
        self.place_floor_cell(0, 0, 0);
        self.place_floor_cell(950, 950, 0);
        proof {
            assert forall|l: BlockLocation| #[trigger]
                self.block_model(l) == old(self).floor_model(dr, l) by {
                if l.y == 0 && in_square(l.x as int, l.z as int, 1000) {
                    assert(0 <= floor_index(l.x as int, l.z as int) < 4004001);
                }
            }
        }
    }

    /// Adds a sparse floor at level 0 to the square within 1000 blocks of the
    /// origin, with the draws of the generator seeded with `seed`: about one
    /// cell in five is made solid, the same cells for the same seed, and
    /// `(0, 0, 0)` and `(950, 0, 950)` are solid whatever the draws.
    pub fn set_random_floor_seeded(&mut self, seed: u64)
        requires
            old(self).wf(),
        ensures
            final(self).wf(),
            forall|c: ChunkLocation| chunk_in_square(c, 1000) ==> #[trigger] final(self).is_loaded_at(c),
            forall|l: BlockLocation| #[trigger]
                final(self).block_model(l) == old(self).floor_model(|k: int| floor_draw(seed, k as nat), l),
    {
        let draws = floor_draws(seed, FLOOR_CELLS);
        self.apply_floor(&draws);
        proof {
            assert forall|l: BlockLocation| #[trigger]
                self.block_model(l) == old(self).floor_model(|k: int| floor_draw(seed, k as nat), l) by {
                assert(self.block_model(l) == old(self).floor_model(|k: int| draws@[k] as int, l));
                if l.y == 0 && in_square(l.x as int, l.z as int, 1000) {
                    let i = floor_index(l.x as int, l.z as int);
                    assert(0 <= i < 4004001);
                    assert(draws@[i] as int == floor_draw(seed, i as nat));
                }
            }
        }
    }

    /// `set_random_floor_seeded` with the fixed seed `FLOOR_SEED`, so that
    /// every run builds the same floor.
    pub fn set_random_floor(&mut self)
        requires
            old(self).wf(),
        ensures
            final(self).wf(),
            forall|c: ChunkLocation| chunk_in_square(c, 1000) ==> #[trigger] final(self).is_loaded_at(c),
            forall|l: BlockLocation| #[trigger]
                final(self).block_model(l) == old(self).floor_model(
                    |k: int| floor_draw(FLOOR_SEED, k as nat),
                    l,
                ),
    {
        self.set_random_floor_seeded(FLOOR_SEED);
    }
}

/// The state of the last entry of `s` at `l`, if any entry is at `l` and `l`
/// lies inside the vertical bound.
pub open spec fn last_write(s: Seq<(BlockLocation, BlockState)>, l: BlockLocation) -> Option<BlockState>
    decreases s.len(),
{
    if s.len() == 0 {
        None
    } else if s.last().0 == l && level_in_world(l.y as int) {
        Some(s.last().1)
    } else {
        last_write(s.drop_last(), l)
    }
}

/// Whether some entry of `s` inside the vertical bound lies in chunk `c`.
pub open spec fn touches(s: Seq<(BlockLocation, BlockState)>, c: ChunkLocation) -> bool {
    exists|i: int|
        0 <= i < s.len() && level_in_world(s[i].0.y as int) && spec_chunk_of(#[trigger] s[i].0) == c
}

impl WorldBlocks {
    /// What the store answers at `l` after the entries of `s` are written in
    /// order onto `self`.
    pub open spec fn pasted(&self, s: Seq<(BlockLocation, BlockState)>, l: BlockLocation) -> Option<BlockApprox> {
        match last_write(s, l) {
            Some(state) => Some(BlockApprox::Realized(state)),
            None => if touches(s, spec_chunk_of(l)) && !self.is_loaded_at(spec_chunk_of(l)) {
                Some(BlockApprox::Realized(BlockState(0)))
            } else {
                self.block_model(l)
            },
        }
    }

    /// Writes each `(location, state)` entry of a parsed structure in order;
    /// a later entry at a location overwrites an earlier one. An entry
    /// outside the vertical bound changes nothing, as with `set_block`.
    pub fn paste(&mut self, blocks: &Vec<(BlockLocation, BlockState)>)
        requires
            old(self).wf(),
        ensures
            final(self).wf(),
            forall|l: BlockLocation| #[trigger] final(self).block_model(l) == old(self).pasted(blocks@, l),
    {
        let mut i: usize = 0;
        while i < blocks.len()
            invariant
                self.wf(),
                i <= blocks@.len(),
                forall|l: BlockLocation| #[trigger]
                    self.block_model(l) == old(self).pasted(blocks@.subrange(0, i as int), l),
                forall|c: ChunkLocation| #[trigger]
                    self.is_loaded_at(c) == (old(self).is_loaded_at(c) || touches(blocks@.subrange(0, i as int), c)),
            decreases blocks@.len() - i,
        {
            let (location, state) = blocks[i];
            let ghost before = *self;
            let ghost prev = blocks@.subrange(0, i as int);
            let ghost next = blocks@.subrange(0, i as int + 1);
            self.set_block(location, state);
            proof {
                assert(next.drop_last() == prev);
                assert(next.last() == (location, state));
                assert(next[i as int] == blocks@[i as int]);
                let inside = level_in_world(location.y as int);
                assert forall|c: ChunkLocation| #[trigger] touches(next, c) == (touches(prev, c) || (inside && c == spec_chunk_of(location))) by {
                    if touches(next, c) {
                        let k = choose|k: int| 0 <= k < next.len() && level_in_world(next[k].0.y as int) && spec_chunk_of(#[trigger] next[k].0) == c;
                        if k < i {
                            assert(prev[k] == next[k]);
                        }
                    }
                    if touches(prev, c) {
                        let k = choose|k: int| 0 <= k < prev.len() && level_in_world(prev[k].0.y as int) && spec_chunk_of(#[trigger] prev[k].0) == c;
                        assert(next[k] == prev[k]);
                    }
                    if inside && c == spec_chunk_of(location) {
                        assert(spec_chunk_of(next[i as int].0) == c);
                    }
                }
                assert forall|c: ChunkLocation| #[trigger]
                    self.is_loaded_at(c) == (old(self).is_loaded_at(c) || touches(next, c)) by {
                    if c != spec_chunk_of(location) || !inside {
                        assert(self.column(c) == before.column(c));
                        assert(before.is_loaded_at(c) == (old(self).is_loaded_at(c) || touches(prev, c)));
                    }
                }
                assert forall|l: BlockLocation| #[trigger]
                    self.block_model(l) == old(self).pasted(next, l) by {
                    assert(before.block_model(l) == old(self).pasted(prev, l));
                    assert(touches(next, spec_chunk_of(l)) == (touches(prev, spec_chunk_of(l)) || (inside && spec_chunk_of(l) == spec_chunk_of(location))));
                    assert(before.is_loaded_at(spec_chunk_of(location)) == (old(self).is_loaded_at(spec_chunk_of(location)) || touches(prev, spec_chunk_of(location))));
                }
            }
            i = i + 1;
        }
        proof {
            assert(blocks@.subrange(0, blocks@.len() as int) == blocks@);
        }
    }
}

} // verus!
