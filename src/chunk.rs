//! The coordinate model (which chunk holds a position) and the block data
//! of one column.
use vstd::prelude::*;

use crate::block::{BlockLocation, BlockState};

verus! {

/// Number of blocks in one 16-level section of a chunk.
pub const SECTION_VOLUME: usize = 4096;

/// Number of sections stacked in a column.
pub const SECTIONS_PER_COLUMN: usize = 16;

/// The horizontal cell `(floor(x / 16), floor(z / 16))` that holds a column.
#[derive(Copy, Clone, Debug, Hash, PartialEq, Eq, Structural)]
pub struct ChunkLocation(pub i32, pub i32);

/// The chunk that holds `loc`. Division on `int` is floor division for a
/// positive divisor, so negative coordinates map to the cell below them.
pub open spec fn spec_chunk_of(loc: BlockLocation) -> ChunkLocation {
    ChunkLocation((loc.x as int / 16) as i32, (loc.z as int / 16) as i32)
}

/// Whether every position of the chunk has coordinates that fit in an `i32`.
pub open spec fn chunk_in_range(c: ChunkLocation) -> bool {
    -0x800_0000 <= c.0 < 0x800_0000 && -0x800_0000 <= c.1 < 0x800_0000
}

/// The position at local offset `(lx, y, lz)` of chunk `c`.
pub open spec fn spec_position(c: ChunkLocation, lx: int, y: int, lz: int) -> BlockLocation {
    BlockLocation { x: (c.0 * 16 + lx) as i32, y: y as i16, z: (c.1 * 16 + lz) as i32 }
}

/// Floor division by 16 of a horizontal coordinate.
fn floor_div16(v: i32) -> (r: i32)
    ensures
        r == v as int / 16,
        -0x800_0000 <= r < 0x800_0000,
{
    let shifted: i64 = v as i64 + 0x8000_0000;
    let q: i64 = shifted / 16;
    (q - 0x800_0000) as i32
}

impl ChunkLocation {
    /// The chunk that holds `loc`.
    pub fn from_block(loc: BlockLocation) -> (r: ChunkLocation)
        ensures
            r == spec_chunk_of(loc),
            chunk_in_range(r),
    {
        ChunkLocation(floor_div16(loc.x), floor_div16(loc.z))
    }
}

/// Positions that share a 16-wide horizontal cell share a chunk; in
/// particular `x = -1` and `x = -16` both lie in chunk `-1`.
pub proof fn lemma_same_cell_same_chunk(a: BlockLocation, b: BlockLocation)
    requires
        a.x as int / 16 == b.x as int / 16,
        a.z as int / 16 == b.z as int / 16,
    ensures
        spec_chunk_of(a) == spec_chunk_of(b),
{
}

/// Every position belongs to the chunk whose origin lies at most 15 blocks
/// before it on each horizontal axis.
pub proof fn lemma_chunk_of_offsets(loc: BlockLocation)
    ensures
        chunk_in_range(spec_chunk_of(loc)),
        0 <= loc.x - spec_chunk_of(loc).0 * 16 < 16,
        0 <= loc.z - spec_chunk_of(loc).1 * 16 < 16,
        loc == spec_position(
            spec_chunk_of(loc),
            loc.x - spec_chunk_of(loc).0 * 16,
            loc.y as int,
            loc.z - spec_chunk_of(loc).1 * 16,
        ),
{
}

/// Index of a local offset inside its section.
pub open spec fn section_index(lx: int, y: int, lz: int) -> int {
    (y % 16) * 256 + lz * 16 + lx
}

/// Whether `(lx, y, lz)` is an offset inside one column.
pub open spec fn local_in_column(lx: int, y: int, lz: int) -> bool {
    0 <= lx < 16 && 0 <= y < 256 && 0 <= lz < 16
}

/// The block data of a loaded column: sixteen sections of 16 levels each. A
/// section that was never written holds no storage and reads as air.
#[derive(Clone, Debug)]
pub struct ChunkData {
    pub sections: Vec<Vec<BlockState>>,
}

impl ChunkData {
    pub open spec fn wf(&self) -> bool {
        &&& self.sections@.len() == 16
        &&& forall|i: int|
            0 <= i < 16 ==> #[trigger] self.sections@[i]@.len() == 0
                || self.sections@[i]@.len() == 4096
    }

    /// Whether the section that holds level `y` has storage.
    pub open spec fn section_present(&self, y: int) -> bool {
        self.sections@[y / 16]@.len() != 0
    }

    /// The state at a local offset.
    pub open spec fn state_at(&self, lx: int, y: int, lz: int) -> BlockState {
        if self.section_present(y) {
            self.sections@[y / 16]@[section_index(lx, y, lz)]
        } else {
            BlockState(0)
        }
    }

    /// A column in which every position is air.
    pub fn new() -> (r: ChunkData)
        ensures
            r.wf(),
            forall|lx: int, y: int, lz: int|
                local_in_column(lx, y, lz) ==> #[trigger] r.state_at(lx, y, lz) == BlockState(0)
                    && !r.section_present(y),
    {
        let mut sections: Vec<Vec<BlockState>> = Vec::new();
        let mut i: usize = 0;
        while i < SECTIONS_PER_COLUMN
            invariant
                i <= 16,
                sections@.len() == i,
                forall|j: int| 0 <= j < i ==> #[trigger] sections@[j]@.len() == 0,
            decreases 16 - i,
        {
            sections.push(Vec::new());
            i = i + 1;
        }
        ChunkData { sections }
    }

    /// The state at a local offset.
    pub fn get(&self, lx: usize, y: usize, lz: usize) -> (r: BlockState)
        requires
            self.wf(),
            local_in_column(lx as int, y as int, lz as int),
        ensures
            r == self.state_at(lx as int, y as int, lz as int),
    {
        let section = &self.sections[y / 16];
        if section.len() == 0 {
            BlockState(0)
        } else {
            section[(y % 16) * 256 + lz * 16 + lx]
        }
    }

    /// Stores `state` at a local offset; every other offset keeps its state.
    pub fn set(&mut self, lx: usize, y: usize, lz: usize, state: BlockState)
        requires
            old(self).wf(),
            local_in_column(lx as int, y as int, lz as int),
        ensures
            final(self).wf(),
            forall|ax: int, ay: int, az: int|
                local_in_column(ax, ay, az) ==> #[trigger] final(self).state_at(ax, ay, az) == if ax
                    == lx && ay == y && az == lz {
                    state
                } else {
                    old(self).state_at(ax, ay, az)
                },
    {
        let s = y / 16;
        if self.sections[s].len() == 0 {
            let mut fresh: Vec<BlockState> = Vec::with_capacity(SECTION_VOLUME);
            let mut i: usize = 0;
            while i < SECTION_VOLUME
                invariant
                    i <= 4096,
                    fresh@.len() == i,
                    forall|j: int| 0 <= j < i ==> #[trigger] fresh@[j] == BlockState(0),
                decreases 4096 - i,
            {
                fresh.push(BlockState(0));
                i = i + 1;
            }
            self.sections.set(s, fresh);
        }
        let ghost filled = *self;
        assert(forall|ax: int, ay: int, az: int|
            local_in_column(ax, ay, az) ==> #[trigger] filled.state_at(ax, ay, az)
                == old(self).state_at(ax, ay, az));
        let idx = (y % 16) * 256 + lz * 16 + lx;
        self.sections[s].set(idx, state);
        assert forall|ax: int, ay: int, az: int|
            local_in_column(ax, ay, az) implies #[trigger] self.state_at(ax, ay, az) == if ax
                == lx && ay == y && az == lz {
                state
            } else {
                old(self).state_at(ax, ay, az)
            } by {
            if ay / 16 == s as int && section_index(ax, ay, az) == idx as int {
                assert(ax == lx && ay == y && az == lz);
            }
            assert(filled.state_at(ax, ay, az) == old(self).state_at(ax, ay, az));
        }
    }

    /// Every section that `update` holds replaces the same section here.
    pub fn merge(&mut self, update: ChunkData)
        requires
            old(self).wf(),
            update.wf(),
        ensures
            final(self).wf(),
            forall|lx: int, y: int, lz: int|
                local_in_column(lx, y, lz) ==> #[trigger] final(self).state_at(lx, y, lz) == if update.section_present(y) {
                    update.state_at(lx, y, lz)
                } else {
                    old(self).state_at(lx, y, lz)
                },
    {
        let mut update = update;
        let ghost upd = update;
        let mut i: usize = 0;
        while i < SECTIONS_PER_COLUMN
            invariant
                0 <= i <= 16,
                self.wf(),
                upd.wf(),
                update.sections@.len() == 16,
                forall|j: int| i <= j < 16 ==> #[trigger] update.sections@[j] == upd.sections@[j],
                forall|j: int|
                    0 <= j < 16 ==> #[trigger] self.sections@[j] == if j < i && upd.sections@[j]@.len() != 0 {
                        upd.sections@[j]
                    } else {
                        old(self).sections@[j]
                    },
            decreases 16 - i,
        {
            if update.sections[i].len() != 0 {
                let mut section: Vec<BlockState> = Vec::new();
                core::mem::swap(&mut section, &mut update.sections[i]);
                self.sections.set(i, section);
            }
            i = i + 1;
        }
    }
}

/// A column of the world: block data that has arrived, or a placeholder for a
/// chunk that is known to exist but whose data has not arrived yet.
#[derive(Clone, Debug)]
pub enum ChunkColumn {
    Loaded { data: ChunkData },
    Placeholder,
}

impl ChunkColumn {
    pub open spec fn wf(&self) -> bool {
        match self {
            ChunkColumn::Loaded { data } => data.wf(),
            ChunkColumn::Placeholder => true,
        }
    }

    pub open spec fn is_loaded(&self) -> bool {
        self is Loaded
    }

    /// A loaded column in which every position is air.
    pub fn empty() -> (r: ChunkColumn)
        ensures
            r.wf(),
            r is Loaded,
            forall|lx: int, y: int, lz: int|
                local_in_column(lx, y, lz) ==> #[trigger] r->data.state_at(lx, y, lz) == BlockState(0)
                    && !r->data.section_present(y),
    {
        ChunkColumn::Loaded { data: ChunkData::new() }
    }
}

/// Whether every character of `s` is an ASCII decimal digit.
pub open spec fn all_digits(s: Seq<char>) -> bool {
    forall|i: int| 0 <= i < s.len() ==> '0' <= #[trigger] s[i] <= '9'
}

/// The value of a string of decimal digits.
pub open spec fn digits_value(s: Seq<char>) -> int
    decreases s.len(),
{
    if s.len() == 0 {
        0
    } else {
        digits_value(s.drop_last()) * 10 + (s.last() as u32 - 48)
    }
}

/// The integer that `s` writes in decimal, with an optional `+` or `-` sign
/// and at least one digit, where it fits an `i32`.
pub open spec fn decimal_i32(s: Seq<char>) -> Option<i32> {
    let signed = s.len() > 0 && (s[0] == '-' || s[0] == '+');
    let digits = if signed { s.drop_first() } else { s };
    let v = if signed && s[0] == '-' { -digits_value(digits) } else { digits_value(digits) };
    if digits.len() > 0 && all_digits(digits) && i32::MIN <= v <= i32::MAX {
        Some(v as i32)
    } else {
        None
    }
}

/// Relies on `i32`'s `FromStr`: an optional sign followed by decimal digits
/// and nothing else, whose value fits an `i32`, gives that value; anything
/// else is an error.
#[verifier::external_body]
fn parse_i32(s: &str) -> (r: Option<i32>)
    ensures
        r == decimal_i32(s@),
{
    s.parse::<i32>().ok()
}

/// Why command arguments do not name a chunk.
#[derive(Copy, Clone, Debug, PartialEq, Eq, Structural)]
pub enum ChunkArgsError {
    /// Not exactly two arguments were given.
    WrongArgCount { expected: usize },
    /// The argument at this position is not a decimal `i32`.
    NotANumber(usize),
}

impl ChunkLocation {
    /// The chunk named by two command arguments, its `x` and its `z`.
    pub fn parse_args(value: &[&str]) -> (r: Result<ChunkLocation, ChunkArgsError>)
        ensures
            value@.len() != 2 ==> r == Err::<ChunkLocation, ChunkArgsError>(
                ChunkArgsError::WrongArgCount { expected: 2 },
            ),
            value@.len() == 2 ==> r == match (decimal_i32(value@[0]@), decimal_i32(value@[1]@)) {
                (Some(x), Some(z)) => Ok(ChunkLocation(x, z)),
                (None, _) => Err(ChunkArgsError::NotANumber(0)),
                (Some(_), None) => Err(ChunkArgsError::NotANumber(1)),
            },
    {
        if value.len() != 2 {
            return Err(ChunkArgsError::WrongArgCount { expected: 2 });
        }
        let x = match parse_i32(value[0]) {
            Some(x) => x,
            None => {
                return Err(ChunkArgsError::NotANumber(0));
            },
        };
        let z = match parse_i32(value[1]) {
            Some(z) => z,
            None => {
                return Err(ChunkArgsError::NotANumber(1));
            },
        };
        Ok(ChunkLocation(x, z))
    }
}

} // verus!
