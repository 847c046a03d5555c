//! The world block store: a sparse map from chunk to column, with point
//! lookups and writes.
use std::collections::HashMap;

use vstd::prelude::*;

use crate::block::{level_in_world, BlockApprox, BlockKind, BlockLocation, BlockState, SimpleType};
use crate::chunk::{
    chunk_in_range, local_in_column, spec_chunk_of, ChunkColumn, ChunkData, ChunkLocation,
};

verus! {

broadcast use vstd::std_specs::hash::group_hash_axioms;

/// The storage key of a chunk: both coordinates shifted to be non-negative
/// and packed into one `u64`.
pub open spec fn spec_chunk_key(c: ChunkLocation) -> u64 {
    ((c.0 + 0x8000_0000) * 0x1_0000_0000 + (c.1 + 0x8000_0000)) as u64
}

proof fn lemma_chunk_key_parts(c: ChunkLocation)
    ensures
        0 <= (c.0 + 0x8000_0000) * 0x1_0000_0000 + (c.1 + 0x8000_0000) <= u64::MAX,
{
    let h = c.0 + 0x8000_0000;
    let l = c.1 + 0x8000_0000;
    assert(0 <= h * 0x1_0000_0000 <= 0xFFFF_FFFF * 0x1_0000_0000) by (nonlinear_arith)
        requires 0 <= h <= 0xFFFF_FFFF;
}

/// Distinct chunks have distinct keys.
proof fn lemma_chunk_key_injective(a: ChunkLocation, b: ChunkLocation)
    ensures
        spec_chunk_key(a) == spec_chunk_key(b) ==> a == b,
{
    lemma_chunk_key_parts(a);
    lemma_chunk_key_parts(b);
    let ha = a.0 + 0x8000_0000;
    let la = a.1 + 0x8000_0000;
    let hb = b.0 + 0x8000_0000;
    let lb = b.1 + 0x8000_0000;
    if spec_chunk_key(a) == spec_chunk_key(b) {
        assert(ha * 0x1_0000_0000 + la == hb * 0x1_0000_0000 + lb);
        assert(ha == hb && la == lb) by (nonlinear_arith)
            requires
                ha * 0x1_0000_0000 + la == hb * 0x1_0000_0000 + lb,
                0 <= la < 0x1_0000_0000,
                0 <= lb < 0x1_0000_0000,
        ;
    }
}

fn chunk_key(c: ChunkLocation) -> (r: u64)
    ensures
        r == spec_chunk_key(c),
{
    proof {
        lemma_chunk_key_parts(c);
    }
    let hi = (c.0 as i64 + 0x8000_0000) as u64;
    let lo = (c.1 as i64 + 0x8000_0000) as u64;
    proof {
        assert(hi * 0x1_0000_0000 <= 0xFFFF_FFFF * 0x1_0000_0000) by (nonlinear_arith)
            requires hi <= 0xFFFF_FFFF;
    }
    hi * 0x1_0000_0000 + lo
}

/// A selection predicate over block states. It must accept every state and
/// answer the same for the same state each time, since a search may ask it
/// again for a state it has already seen.
pub open spec fn is_selector<F: Fn(BlockState) -> bool>(f: F) -> bool {
    &&& forall|s: BlockState| #[trigger] f.requires((s,))
    &&& forall|s: BlockState, a: bool, b: bool|
        #[trigger] f.ensures((s,), a) && #[trigger] f.ensures((s,), b) ==> a == b
}

/// Whether the selection predicate picks the state.
pub open spec fn selects<F: Fn(BlockState) -> bool>(f: F, s: BlockState) -> bool {
    f.ensures((s,), true)
}

/// Whether the selection predicate was asked about the state: it answered
/// either way. A caller learns from the predicate's own `ensures` what that
/// answer says; a position that a search scanned and left out was answered
/// `false`.
pub open spec fn decided<F: Fn(BlockState) -> bool>(f: F, s: BlockState) -> bool {
    f.ensures((s,), true) || f.ensures((s,), false)
}

/// Why a merge into the store failed.
#[derive(Copy, Clone, Debug, PartialEq, Eq, Structural)]
pub enum WorldError {
    /// The chunk that a partial update was meant for has never been stored.
    ChunkNotPresent(ChunkLocation),
}

/// The known part of the world: a sparse map from chunk to column.
#[derive(Debug)]
pub struct WorldBlocks {
    index: HashMap<u64, usize>,
    locations: Vec<ChunkLocation>,
    columns: Vec<ChunkColumn>,
}

impl WorldBlocks {
    pub closed spec fn wf(&self) -> bool {
        &&& self.locations@.len() == self.columns@.len()
        &&& forall|k: u64| #[trigger]
            self.index@.contains_key(k) ==> (self.index@[k] as int) < self.locations@.len()
                && spec_chunk_key(self.locations@[self.index@[k] as int]) == k
        &&& forall|i: int|
            0 <= i < self.locations@.len() ==> self.index@.contains_key(
                spec_chunk_key(#[trigger] self.locations@[i]),
            ) && self.index@[spec_chunk_key(self.locations@[i])] == i
        &&& forall|i: int| 0 <= i < self.columns@.len() ==> (#[trigger] self.columns@[i]).wf()
    }

    /// The column stored for chunk `c`, if any.
    pub closed spec fn column(&self, c: ChunkLocation) -> Option<ChunkColumn> {
        let k = spec_chunk_key(c);
        if self.index@.contains_key(k) {
            Some(self.columns@[self.index@[k] as int])
        } else {
            None
        }
    }

    /// Whether chunk `c` holds loaded block data.
    pub open spec fn is_loaded_at(&self, c: ChunkLocation) -> bool {
        self.column(c) is Some && self.column(c)->Some_0 is Loaded
    }

    /// The loaded block data of chunk `c`; meaningful where `is_loaded_at(c)`.
    pub open spec fn data_at(&self, c: ChunkLocation) -> ChunkData {
        self.column(c)->Some_0->data
    }

    /// The state stored at a position of a loaded chunk.
    pub open spec fn stored_state(&self, loc: BlockLocation) -> BlockState {
        let c = spec_chunk_of(loc);
        self.data_at(c).state_at(loc.x - c.0 * 16, loc.y as int, loc.z - c.1 * 16)
    }

    /// What a point query answers at `loc`: air outside the vertical bound,
    /// whatever is stored; inside it, the stored state in a loaded chunk, and
    /// nothing for a placeholder or a chunk that was never stored.
    pub open spec fn block_model(&self, loc: BlockLocation) -> Option<BlockApprox> {
        let c = spec_chunk_of(loc);
        if !level_in_world(loc.y as int) {
            Some(BlockApprox::Realized(BlockState(0)))
        } else if self.column(c) is None {
            None
        } else if self.is_loaded_at(c) {
            Some(BlockApprox::Realized(self.stored_state(loc)))
        } else {
            None
        }
    }

    /// An empty store: every chunk is unresolved.
    pub fn new() -> (r: WorldBlocks)
        ensures
            r.wf(),
            forall|c: ChunkLocation| #[trigger] r.column(c) is None,
    {
        WorldBlocks { index: HashMap::new(), locations: Vec::new(), columns: Vec::new() }
    }

    /// The position of chunk `c` in the column list, if it is stored.
    fn find(&self, c: ChunkLocation) -> (r: Option<usize>)
        requires
            self.wf(),
        ensures
            match r {
                Some(i) => self.column(c) == Some(self.columns@[i as int]) && i
                    < self.columns@.len() && self.locations@[i as int] == c,
                None => self.column(c) is None,
            },
    {
        let key = chunk_key(c);
        match self.index.get(&key) {
            Some(i) => {
                proof {
                    lemma_chunk_key_injective(c, self.locations@[*i as int]);
                }
                Some(*i)
            },
            None => None,
        }
    }

    /// The answer of a point query at `location`.
    pub fn get_block(&self, location: BlockLocation) -> (r: Option<BlockApprox>)
        requires
            self.wf(),
        ensures
            r == self.block_model(location),
    {
        if location.y < 0 || location.y >= 256 {
            return Some(BlockApprox::Realized(BlockState::air()));
        }
        let c = ChunkLocation::from_block(location);
        let i = match self.find(c) {
            Some(i) => i,
            None => {
                return None;
            },
        };
        match &self.columns[i] {
            ChunkColumn::Loaded { data } => {
                let lx = (location.x as i64 - c.0 as i64 * 16) as usize;
                let lz = (location.z as i64 - c.1 as i64 * 16) as usize;
                Some(BlockApprox::Realized(data.get(lx, location.y as usize, lz)))
            },
            ChunkColumn::Placeholder => None,
        }
    }
}

impl WorldBlocks {
    /// Stores a new column for a chunk that is not stored yet.
    fn push_column(&mut self, c: ChunkLocation, column: ChunkColumn) -> (r: usize)
        requires
            old(self).wf(),
            old(self).column(c) is None,
            column.wf(),
        ensures
            final(self).wf(),
            final(self).column(c) == Some(column),
            forall|d: ChunkLocation| d != c ==> #[trigger] final(self).column(d) == old(self).column(d),
            r == old(self).locations@.len(),
            final(self).columns@[r as int] == column,
            final(self).locations@ == old(self).locations@.push(c),
    {
        let key = chunk_key(c);
        let i = self.columns.len();
        self.locations.push(c);
        self.columns.push(column);
        self.index.insert(key, i);
        proof {
            assert forall|k: u64| #[trigger]
                self.index@.contains_key(k) implies (self.index@[k] as int) < self.locations@.len()
                && spec_chunk_key(self.locations@[self.index@[k] as int]) == k by {
                if k != key {
                    assert(old(self).index@.contains_key(k));
                }
            }
            assert forall|j: int| 0 <= j < self.locations@.len() implies self.index@.contains_key(
                spec_chunk_key(#[trigger] self.locations@[j]),
            ) && self.index@[spec_chunk_key(self.locations@[j])] == j by {
                if j < i {
                    let d = self.locations@[j];
                    assert(old(self).locations@[j] == d);
                    if spec_chunk_key(d) == key {
                        lemma_chunk_key_injective(c, d);
                    }
                }
            }
            assert forall|d: ChunkLocation| d != c implies #[trigger] self.column(d) == old(self).column(d) by {
                lemma_chunk_key_injective(c, d);
                let k = spec_chunk_key(d);
                if old(self).index@.contains_key(k) {
                    assert(self.columns@[self.index@[k] as int] == old(self).columns@[old(self).index@[k] as int]);
                }
            }
        }
        i
    }

    /// Makes chunk `c` hold loaded data and returns its place in the column
    /// list. Loaded data is kept; an absent chunk or a placeholder becomes an
    /// empty loaded column.
    fn ensure_loaded(&mut self, c: ChunkLocation) -> (r: usize)
        requires
            old(self).wf(),
        ensures
            final(self).wf(),
            r < final(self).columns@.len(),
            final(self).locations@[r as int] == c,
            final(self).column(c) == Some(final(self).columns@[r as int]),
            final(self).is_loaded_at(c),
            old(self).is_loaded_at(c) ==> final(self).column(c) == old(self).column(c),
            !old(self).is_loaded_at(c) ==> forall|lx: int, y: int, lz: int|
                local_in_column(lx, y, lz) ==> #[trigger] final(self).data_at(c).state_at(lx, y, lz)
                    == BlockState(0),
            forall|d: ChunkLocation| d != c ==> #[trigger] final(self).column(d) == old(self).column(d),
            final(self).locations@.len() >= old(self).locations@.len(),
            forall|j: int|
                0 <= j < old(self).locations@.len() ==> #[trigger] final(self).locations@[j]
                    == old(self).locations@[j],
    {
        match self.find(c) {
            None => self.push_column(c, ChunkColumn::empty()),
            Some(i) => {
                let loaded = match &self.columns[i] {
                    ChunkColumn::Loaded { .. } => true,
                    ChunkColumn::Placeholder => false,
                };
                if !loaded {
                    self.columns.set(i, ChunkColumn::empty());
                    proof {
                        assert forall|d: ChunkLocation| d != c implies #[trigger] self.column(d)
                            == old(self).column(d) by {
                            lemma_chunk_key_injective(c, d);
                        }
                    }
                }
                i
            },
        }
    }

    /// Whether `self` is `before` with `block` written at `location`: that
    /// position reads `block`; the other positions of its chunk read air
    /// where the chunk was not loaded before, and keep their answer where it
    /// was; every other chunk is unchanged.
    pub open spec fn is_write_of(&self, before: WorldBlocks, location: BlockLocation, block: BlockState) -> bool {
        &&& forall|l: BlockLocation| #[trigger]
            self.block_model(l) == if l == location {
                Some(BlockApprox::Realized(block))
            } else if spec_chunk_of(l) == spec_chunk_of(location) && !before.is_loaded_at(
                spec_chunk_of(location),
            ) {
                Some(BlockApprox::Realized(BlockState(0)))
            } else {
                before.block_model(l)
            }
        &&& self.is_loaded_at(spec_chunk_of(location))
        &&& forall|d: ChunkLocation|
            d != spec_chunk_of(location) ==> #[trigger] self.column(d) == before.column(d)
    }

    /// Whether `self` is `before` after `set_block(location, block)`: the
    /// write of `is_write_of` for a level inside the vertical bound, and no
    /// change at all outside it, where every position reads as air
    /// anyway.
    pub open spec fn is_set_of(&self, before: WorldBlocks, location: BlockLocation, block: BlockState) -> bool {
        if level_in_world(location.y as int) {
            self.is_write_of(before, location, block)
        } else {
            *self == before
        }
    }

    /// Stores `block` at `location`, creating an empty loaded column for its
    /// chunk where none was loaded. Every position that answered before keeps
    /// its answer, but `location` itself. A level outside the vertical bound
    /// holds no data, and a write there changes nothing.
    pub fn set_block(&mut self, location: BlockLocation, block: BlockState)
        requires
            old(self).wf(),
        ensures
            final(self).wf(),
            final(self).is_set_of(*old(self), location, block),
    {
        if location.y < 0 || location.y >= 256 {
            return;
        }
        let c = ChunkLocation::from_block(location);
        let lx = (location.x as i64 - c.0 as i64 * 16) as usize;
        let lz = (location.z as i64 - c.1 as i64 * 16) as usize;
        let y = location.y as usize;
        let i = self.ensure_loaded(c);
        let ghost mid = *self;
        let mut column = ChunkColumn::Placeholder;
        core::mem::swap(&mut column, &mut self.columns[i]);
        let column = match column {
            ChunkColumn::Loaded { mut data } => {
                data.set(lx, y, lz, block);
                ChunkColumn::Loaded { data }
            },
            ChunkColumn::Placeholder => ChunkColumn::Placeholder,
        };
        self.columns.set(i, column);
        proof {
            assert(self.index@ == mid.index@);
            assert forall|d: ChunkLocation| d != c implies #[trigger] self.column(d)
                == mid.column(d) by {
                lemma_chunk_key_injective(c, d);
            }
            assert forall|l: BlockLocation| #[trigger]
                self.block_model(l) == if l == location {
                    Some(BlockApprox::Realized(block))
                } else if spec_chunk_of(l) == c && !old(self).is_loaded_at(c) {
                    Some(BlockApprox::Realized(BlockState(0)))
                } else {
                    old(self).block_model(l)
                } by {
                crate::chunk::lemma_chunk_of_offsets(l);
                crate::chunk::lemma_chunk_of_offsets(location);
                assert(self.column(c) == Some(self.columns@[i as int]));
                if spec_chunk_of(l) != c {
                    assert(self.column(spec_chunk_of(l)) == old(self).column(spec_chunk_of(l)));
                } else if level_in_world(l.y as int) {
                    let ax = l.x - c.0 * 16;
                    let az = l.z - c.1 * 16;
                    assert(local_in_column(ax, l.y as int, az));
                    assert(self.data_at(c).state_at(ax, l.y as int, az) == if ax == lx && l.y
                        == y && az == lz {
                        block
                    } else {
                        mid.data_at(c).state_at(ax, l.y as int, az)
                    });
                    if ax == lx && l.y == y && az == lz {
                        assert(l == location);
                    }
                }
            }
        }
    }
}

impl WorldBlocks {
    /// Stores a whole column for chunk `location`, replacing what was there. A
    /// placeholder never replaces a stored column, so loaded data is never
    /// downgraded.
    pub fn add_column(&mut self, location: ChunkLocation, column: ChunkColumn)
        requires
            old(self).wf(),
            column.wf(),
        ensures
            final(self).wf(),
            final(self).column(location) == if column is Placeholder && old(self).column(
                location,
            ) is Some {
                old(self).column(location)
            } else {
                Some(column)
            },
            forall|d: ChunkLocation| d != location ==> #[trigger] final(self).column(d) == old(self).column(d),
    {
        match self.find(location) {
            None => {
                self.push_column(location, column);
            },
            Some(i) => {
                let keep = match &column {
                    ChunkColumn::Placeholder => true,
                    ChunkColumn::Loaded { .. } => false,
                };
                if !keep {
                    self.columns.set(i, column);
                    proof {
                        assert forall|d: ChunkLocation| d != location implies #[trigger] self.column(d)
                            == old(self).column(d) by {
                            lemma_chunk_key_injective(location, d);
                        }
                    }
                }
            },
        }
    }

    /// Whether `self` is `before` with the partial update `column` merged into
    /// the stored column of chunk `location`: every section that the update
    /// holds replaces the stored one, a placeholder takes the update whole, a
    /// placeholder update changes nothing, and every other chunk is unchanged.
    pub open spec fn is_merge_of(&self, before: WorldBlocks, location: ChunkLocation, column: ChunkColumn) -> bool {
        &&& forall|d: ChunkLocation| d != location ==> #[trigger] self.column(d) == before.column(d)
        &&& column is Placeholder ==> self.column(location) == before.column(location)
        &&& column is Loaded && before.column(location) is Some && !before.is_loaded_at(location)
            ==> self.column(location) == Some(column)
        &&& column is Loaded && before.is_loaded_at(location) ==> {
            &&& self.is_loaded_at(location)
            &&& forall|lx: int, y: int, lz: int|
                local_in_column(lx, y, lz) ==> #[trigger] self.data_at(location).state_at(lx, y, lz)
                    == if column->data.section_present(y) {
                    column->data.state_at(lx, y, lz)
                } else {
                    before.data_at(location).state_at(lx, y, lz)
                }
        }
    }

    /// Merges a partial update into the column of chunk `location`, which
    /// must already be stored: every section that the update holds replaces
    /// the stored one, a placeholder takes the update whole, and a placeholder
    /// update changes nothing. Fails, changing nothing, where the chunk was
    /// never stored.
    pub fn modify_column(&mut self, location: ChunkLocation, column: ChunkColumn) -> (r: Result<
        (),
        WorldError,
    >)
        requires
            old(self).wf(),
            column.wf(),
        ensures
            final(self).wf(),
            r is Err <==> old(self).column(location) is None,
            r is Err ==> r == Err::<(), WorldError>(WorldError::ChunkNotPresent(location)),
            r is Err ==> *final(self) == *old(self),
            r is Ok ==> final(self).is_merge_of(*old(self), location, column),
    {
        let i = match self.find(location) {
            None => {
                return Err(WorldError::ChunkNotPresent(location));
            },
            Some(i) => i,
        };
        let ghost before = *self;
        let mut stored = ChunkColumn::Placeholder;
        core::mem::swap(&mut stored, &mut self.columns[i]);
        let merged = match column {
            ChunkColumn::Placeholder => stored,
            ChunkColumn::Loaded { data: update } => match stored {
                ChunkColumn::Loaded { mut data } => {
                    data.merge(update);
                    ChunkColumn::Loaded { data }
                },
                ChunkColumn::Placeholder => ChunkColumn::Loaded { data: update },
            },
        };
        self.columns.set(i, merged);
        proof {
            assert(self.index@ == before.index@);
            assert forall|d: ChunkLocation| d != location implies #[trigger] self.column(d)
                == old(self).column(d) by {
                lemma_chunk_key_injective(location, d);
            }
            assert(self.column(location) == Some(self.columns@[i as int]));
        }
        Ok(())
    }

    /// Merges a partial update into the column of chunk `location`, storing
    /// the update as the whole column where the chunk was never stored.
    pub fn merge_column(&mut self, location: ChunkLocation, column: ChunkColumn)
        requires
            old(self).wf(),
            column.wf(),
        ensures
            final(self).wf(),
            old(self).column(location) is None ==> final(self).column(location) == Some(column),
            old(self).column(location) is None ==> forall|d: ChunkLocation|
                d != location ==> #[trigger] final(self).column(d) == old(self).column(d),
            old(self).column(location) is Some ==> final(self).is_merge_of(*old(self), location, column),
    {
        match self.find(location) {
            None => {
                self.push_column(location, column);
            },
            Some(_) => {
                let _ = self.modify_column(location, column);
            },
        }
    }

    /// The exact state at `location`, where the store knows it.
    pub fn get_block_exact(&self, location: BlockLocation) -> (r: Option<BlockState>)
        requires
            self.wf(),
        ensures
            r == match self.block_model(location) {
                Some(BlockApprox::Realized(s)) => Some(s),
                None => None::<BlockState>,
            },
    {
        match self.get_block(location) {
            Some(BlockApprox::Realized(state)) => Some(state),
            None => None,
        }
    }

    /// The coarse classification at `location`, where the store knows it.
    pub fn get_block_simple(&self, location: BlockLocation) -> (r: Option<SimpleType>)
        requires
            self.wf(),
        ensures
            r == match self.block_model(location) {
                Some(b) => Some(b.spec_s_type()),
                None => None::<SimpleType>,
            },
    {
        match self.get_block(location) {
            Some(block) => Some(block.s_type()),
            None => None,
        }
    }

    /// The block kind at `location`, where the store knows the exact state.
    pub fn get_block_kind(&self, location: BlockLocation) -> (r: Option<BlockKind>)
        requires
            self.wf(),
        ensures
            r == match self.block_model(location) {
                Some(BlockApprox::Realized(s)) => Some(BlockKind(s.spec_id())),
                None => None::<BlockKind>,
            },
    {
        match self.get_block_exact(location) {
            Some(state) => Some(state.kind()),
            None => None,
        }
    }

    /// The block data of chunk `location`, where it is loaded.
    pub fn get_real_column(&self, location: ChunkLocation) -> (r: Option<&ChunkData>)
        requires
            self.wf(),
        ensures
            match r {
                Some(data) => self.is_loaded_at(location) && *data == self.data_at(location),
                None => !self.is_loaded_at(location),
            },
    {
        match self.find(location) {
            None => None,
            Some(i) => match &self.columns[i] {
                ChunkColumn::Loaded { data } => Some(data),
                ChunkColumn::Placeholder => None,
            },
        }
    }

    /// Mutable access to the block data of chunk `location`, where it is
    /// loaded. The store then holds whatever the data is left as.
    pub fn get_real_column_mut(&mut self, location: ChunkLocation) -> (r: Option<&mut ChunkData>)
        requires
            old(self).wf(),
        ensures
            r is Some ==> old(self).is_loaded_at(location),
            r is Some ==> *r->Some_0 == old(self).data_at(location),
            r is Some ==> (final(r->Some_0).wf() ==> final(self).wf()),
            r is Some ==> final(self).column(location) == Some(ChunkColumn::Loaded { data: *final(r->Some_0) }),
            r is Some ==> forall|d: ChunkLocation|
                d != location ==> #[trigger] final(self).column(d) == old(self).column(d),
            r is None ==> !old(self).is_loaded_at(location) && *final(self) == *old(self),
    {
        match self.find(location) {
            None => None,
            Some(i) => {
                let loaded = match &self.columns[i] {
                    ChunkColumn::Loaded { .. } => true,
                    ChunkColumn::Placeholder => false,
                };
                if !loaded {
                    return None;
                }
                match &mut self.columns[i] {
                    ChunkColumn::Loaded { data } => Some(data),
                    ChunkColumn::Placeholder => None,
                }
            },
        }
    }

    /// Whether the state at `loc` is known and solid.
    pub open spec fn solid_at(&self, loc: BlockLocation) -> bool {
        match self.block_model(loc) {
            Some(BlockApprox::Realized(s)) => s.spec_simple_type() == SimpleType::Solid,
            None => false,
        }
    }

    /// The nearest position strictly below `location` (down to level 0) whose
    /// state is known and solid, with that state.
    pub fn first_below(&self, location: BlockLocation) -> (r: Option<(BlockLocation, BlockState)>)
        requires
            self.wf(),
        ensures
            match r {
                Some((l, s)) => {
                    &&& l.x == location.x && l.z == location.z
                    &&& 0 <= l.y < location.y
                    &&& self.solid_at(l)
                    &&& self.block_model(l) == Some(BlockApprox::Realized(s))
                    &&& forall|y: i16| l.y < y < location.y ==> !#[trigger] self.solid_at(
                        BlockLocation { y, ..location },
                    )
                },
                None => forall|y: i16| 0 <= y < location.y ==> !#[trigger] self.solid_at(
                    BlockLocation { y, ..location },
                ),
            },
    {
        let mut y: i16 = location.y;
        while y > 0
            invariant
                self.wf(),
                y <= location.y,
                forall|y2: i16| y <= y2 < location.y ==> !#[trigger] self.solid_at(
                    BlockLocation { y: y2, ..location },
                ),
            decreases y,
        {
            y = y - 1;
            let loc = BlockLocation::new(location.x, y, location.z);
            match self.get_block_exact(loc) {
                Some(state) => {
                    if state.simple_type() == SimpleType::Solid {
                        assert(loc == BlockLocation { y, ..location });
                        return Some((loc, state));
                    }
                },
                None => {},
            }
            assert(loc == BlockLocation { y, ..location });
        }
        None
    }
}

impl WorldBlocks {
    /// The stored chunks, in the order in which they were first stored.
    pub closed spec fn chunk_list(&self) -> Seq<ChunkLocation> {
        self.locations@
    }

    /// The chunks that hold loaded data and whose positions all have
    /// coordinates that fit an `i32`: the chunks that spatial searches scan.
    pub open spec fn loaded_chunks(&self) -> Set<ChunkLocation> {
        Set::new(|c: ChunkLocation| self.is_loaded_at(c) && chunk_in_range(c))
    }

    /// The chunk list holds every stored chunk exactly once.
    pub proof fn lemma_chunk_list(&self)
        requires
            self.wf(),
        ensures
            self.chunk_list().no_duplicates(),
            forall|i: int|
                0 <= i < self.chunk_list().len() ==> #[trigger] self.column(self.chunk_list()[i])
                    is Some,
            forall|c: ChunkLocation| #[trigger]
                self.column(c) is Some ==> self.chunk_list().contains(c),
            self.loaded_chunks().subset_of(self.chunk_list().to_set()),
            self.loaded_chunks().finite(),
    {
        assert forall|i: int, j: int|
            0 <= i < self.chunk_list().len() && 0 <= j < self.chunk_list().len() && i != j
                implies self.chunk_list()[i] != self.chunk_list()[j] by {
            let _ = self.locations@[i];
            let _ = self.locations@[j];
        }
        assert forall|c: ChunkLocation| #[trigger]
            self.column(c) is Some implies self.chunk_list().contains(c) by {
            let k = spec_chunk_key(c);
            let i = self.index@[k] as int;
            lemma_chunk_key_injective(c, self.locations@[i]);
        }
        assert forall|c: ChunkLocation| #[trigger]
            self.loaded_chunks().contains(c) implies self.chunk_list().to_set().contains(c) by {
            assert(self.column(c) is Some);
        }
        vstd::set_lib::lemma_len_subset(self.loaded_chunks(), self.chunk_list().to_set());
    }

    /// Number of stored chunks.
    pub(crate) fn chunk_count(&self) -> (r: usize)
        requires
            self.wf(),
        ensures
            r == self.chunk_list().len(),
    {
        self.locations.len()
    }

    /// The `i`-th stored chunk and its column.
    pub(crate) fn chunk_entry(&self, i: usize) -> (r: (ChunkLocation, &ChunkColumn))
        requires
            self.wf(),
            i < self.chunk_list().len(),
        ensures
            r.0 == self.chunk_list()[i as int],
            self.column(r.0) == Some(*r.1),
            r.1.wf(),
    {
        let c = self.locations[i];
        proof {
            let _ = self.columns@[i as int];
        }
        (c, &self.columns[i])
    }
}

impl WorldBlocks {
    /// The data of a loaded chunk is well formed.
    pub proof fn lemma_loaded_wf(&self, c: ChunkLocation)
        requires
            self.wf(),
            self.is_loaded_at(c),
        ensures
            self.data_at(c).wf(),
    {
        let _ = self.columns@[self.index@[spec_chunk_key(c)] as int];
    }
}

impl WorldBlocks {
    /// Makes chunk `c` hold loaded data: loaded data is kept, an absent chunk
    /// or a placeholder becomes an empty loaded column.
    pub(crate) fn make_loaded(&mut self, c: ChunkLocation)
        requires
            old(self).wf(),
        ensures
            final(self).wf(),
            final(self).is_loaded_at(c),
            forall|l: BlockLocation| #[trigger]
                final(self).block_model(l) == if spec_chunk_of(l) == c && !old(self).is_loaded_at(c) {
                    Some(BlockApprox::Realized(BlockState(0)))
                } else {
                    old(self).block_model(l)
                },
            forall|d: ChunkLocation| d != c ==> #[trigger] final(self).column(d) == old(self).column(d),
    {
        self.ensure_loaded(c);
        proof {
            assert forall|l: BlockLocation| #[trigger]
                self.block_model(l) == if spec_chunk_of(l) == c && !old(self).is_loaded_at(c) {
                    Some(BlockApprox::Realized(BlockState(0)))
                } else {
                    old(self).block_model(l)
                } by {
                crate::chunk::lemma_chunk_of_offsets(l);
                if spec_chunk_of(l) == c && level_in_world(l.y as int) {
                    assert(local_in_column(l.x - c.0 * 16, l.y as int, l.z - c.1 * 16));
                }
            }
        }
    }
}

impl Default for WorldBlocks {
    fn default() -> (r: WorldBlocks)
        ensures
            r.wf(),
            forall|c: ChunkLocation| #[trigger] r.column(c) is None,
    {
        WorldBlocks::new()
    }
}

} // verus!
