//! Spatial searches over the loaded chunks of the store.
use vstd::prelude::*;

use crate::block::{level_in_world, spec_dist2, BlockLocation, BlockState};
use crate::blocks::{decided, is_selector, selects, WorldBlocks};
use crate::chunk::{
    chunk_in_range, lemma_chunk_of_offsets, local_in_column, spec_chunk_of, spec_position,
    ChunkColumn, ChunkData, ChunkLocation,
};
use crate::sort::sort_by_distance;

verus! {

/// Number of positions in one column.
const COLUMN_VOLUME: usize = 65536;

/// The scan index of a local offset: levels bottom up, then rows, then
/// columns within a row.
pub open spec fn scan_index(lx: int, y: int, lz: int) -> int {
    y * 256 + lz * 16 + lx
}

/// The scan index of a position of chunk `c`.
pub open spec fn scan_index_in(c: ChunkLocation, l: BlockLocation) -> int {
    scan_index(l.x - c.0 * 16, l.y as int, l.z - c.1 * 16)
}

proof fn lemma_scan_decode(i: int)
    requires
        0 <= i < 65536,
    ensures
        local_in_column(i % 16, i / 256, (i / 16) % 16),
        scan_index(i % 16, i / 256, (i / 16) % 16) == i,
{
    vstd::arithmetic::div_mod::lemma_fundamental_div_mod(i, 16);
    vstd::arithmetic::div_mod::lemma_fundamental_div_mod(i / 16, 16);
    vstd::arithmetic::div_mod::lemma_div_denominator(i, 16, 16);
    vstd::arithmetic::div_mod::lemma_mod_bound(i, 16);
    vstd::arithmetic::div_mod::lemma_mod_bound(i / 16, 16);
}

proof fn lemma_scan_encode(lx: int, y: int, lz: int)
    requires
        local_in_column(lx, y, lz),
    ensures
        scan_index(lx, y, lz) % 16 == lx,
        (scan_index(lx, y, lz) / 16) % 16 == lz,
        scan_index(lx, y, lz) / 256 == y,
        0 <= scan_index(lx, y, lz) < 65536,
{
    let i = scan_index(lx, y, lz);
    vstd::arithmetic::div_mod::lemma_fundamental_div_mod_converse(i, 16, y * 16 + lz, lx);
    vstd::arithmetic::div_mod::lemma_fundamental_div_mod_converse(y * 16 + lz, 16, y, lz);
    vstd::arithmetic::div_mod::lemma_div_denominator(i, 16, 16);
}

/// Two positions of one chunk with the same scan index are the same.
proof fn lemma_scan_index_unique(c: ChunkLocation, a: BlockLocation, b: BlockLocation)
    requires
        spec_chunk_of(a) == c,
        spec_chunk_of(b) == c,
        level_in_world(a.y as int),
        level_in_world(b.y as int),
        scan_index_in(c, a) == scan_index_in(c, b),
    ensures
        a == b,
{
    lemma_chunk_of_offsets(a);
    lemma_chunk_of_offsets(b);
    lemma_scan_encode(a.x - c.0 * 16, a.y as int, a.z - c.1 * 16);
    lemma_scan_encode(b.x - c.0 * 16, b.y as int, b.z - c.1 * 16);
}

/// Whether a scan of chunk `c`, whose data is `data`, picks position `l`.
pub open spec fn picks<F: Fn(BlockState) -> bool>(
    c: ChunkLocation,
    data: ChunkData,
    f: F,
    l: BlockLocation,
) -> bool {
    &&& spec_chunk_of(l) == c
    &&& level_in_world(l.y as int)
    &&& selects(f, data.state_at(l.x - c.0 * 16, l.y as int, l.z - c.1 * 16))
}

/// The state that `data`, the block data of chunk `c`, holds at `l`.
pub open spec fn local_state(c: ChunkLocation, data: ChunkData, l: BlockLocation) -> BlockState {
    data.state_at(l.x - c.0 * 16, l.y as int, l.z - c.1 * 16)
}

/// Appends to `out` every position of chunk `c` that the selector picks,
/// each once, in scan order; the selector answers for every position of the
/// chunk.
fn collect_chunk<F: Fn(BlockState) -> bool>(
    c: ChunkLocation,
    data: &ChunkData,
    f: &F,
    out: &mut Vec<BlockLocation>,
)
    requires
        chunk_in_range(c),
        data.wf(),
        is_selector(*f),
    ensures
        final(out)@.len() >= old(out)@.len(),
        forall|j: int| 0 <= j < old(out)@.len() ==> #[trigger] final(out)@[j] == old(out)@[j],
        forall|j: int|
            old(out)@.len() <= j < final(out)@.len() ==> picks(c, *data, *f, #[trigger] final(out)@[j]),
        forall|j: int, k: int|
            old(out)@.len() <= j < k < final(out)@.len() ==> #[trigger] final(out)@[j]
                != #[trigger] final(out)@[k],
        forall|l: BlockLocation| #[trigger]
            picks(c, *data, *f, l) ==> exists|j: int|
                old(out)@.len() <= j < final(out)@.len() && #[trigger] final(out)@[j] == l,
        forall|l: BlockLocation|
            spec_chunk_of(l) == c && level_in_world(l.y as int) ==> decided(
                *f,
                #[trigger] local_state(c, *data, l),
            ),
{
    let ghost start = old(out)@.len();
    let base_x: i32 = c.0 * 16;
    let base_z: i32 = c.1 * 16;
    let mut i: usize = 0;
    while i < COLUMN_VOLUME
        invariant
            chunk_in_range(c),
            data.wf(),
            is_selector(*f),
            base_x == c.0 * 16,
            base_z == c.1 * 16,
            i <= 65536,
            out@.len() >= start,
            start == old(out)@.len(),
            forall|j: int| 0 <= j < start ==> #[trigger] out@[j] == old(out)@[j],
            forall|j: int|
                start <= j < out@.len() ==> picks(c, *data, *f, #[trigger] out@[j])
                    && scan_index_in(c, out@[j]) < i,
            forall|j: int, k: int|
                start <= j < k < out@.len() ==> scan_index_in(c, #[trigger] out@[j])
                    < scan_index_in(c, #[trigger] out@[k]),
            forall|l: BlockLocation| #[trigger]
                picks(c, *data, *f, l) && scan_index_in(c, l) < i ==> exists|j: int|
                    start <= j < out@.len() && #[trigger] out@[j] == l,
            forall|l: BlockLocation|
                spec_chunk_of(l) == c && level_in_world(l.y as int) && scan_index_in(c, l) < i
                    ==> decided(*f, #[trigger] local_state(c, *data, l)),
        decreases 65536 - i,
    {
        let lx = i % 16;
        let lz = (i / 16) % 16;
        let y = i / 256;
        proof {
            lemma_scan_decode(i as int);
        }
        let state = data.get(lx, y, lz);
        let chosen = f(state);
        let l = BlockLocation::new(base_x + lx as i32, y as i16, base_z + lz as i32);
        proof {
            assert(l == spec_position(c, lx as int, y as int, lz as int));
            lemma_chunk_of_offsets(l);
            assert(spec_chunk_of(l) == c) by {
                assert((l.x as int) / 16 == c.0) by {
                    vstd::arithmetic::div_mod::lemma_fundamental_div_mod_converse(
                        l.x as int, 16, c.0 as int, lx as int);
                }
                assert((l.z as int) / 16 == c.1) by {
                    vstd::arithmetic::div_mod::lemma_fundamental_div_mod_converse(
                        l.z as int, 16, c.1 as int, lz as int);
                }
            }
            assert(scan_index_in(c, l) == i);
        }
        let ghost before = out@;
        if chosen {
            out.push(l);
            proof {
                assert(out@[out@.len() - 1] == l);
            }
        }
        proof {
            assert forall|m: BlockLocation| #[trigger]
                picks(c, *data, *f, m) && scan_index_in(c, m) < i + 1 implies exists|j: int|
                start <= j < out@.len() && #[trigger] out@[j] == m by {
                if scan_index_in(c, m) == i {
                    lemma_scan_index_unique(c, m, l);
                    if !chosen {
                        assert(f.ensures((state,), false));
                    }
                    assert(out@[out@.len() - 1] == m);
                } else {
                    let j = choose|j: int| start <= j < before.len() && #[trigger] before[j] == m;
                    assert(out@[j] == m);
                }
            }
            assert(local_state(c, *data, l) == state);
            assert forall|m: BlockLocation|
                spec_chunk_of(m) == c && level_in_world(m.y as int) && scan_index_in(c, m) < i + 1
                    implies decided(*f, #[trigger] local_state(c, *data, m)) by {
                if scan_index_in(c, m) == i {
                    lemma_scan_index_unique(c, m, l);
                }
            }
        }
        i = i + 1;
    }
    proof {
        assert forall|j: int, k: int|
            start <= j < k < out@.len() implies #[trigger] out@[j] != #[trigger] out@[k] by {
            assert(scan_index_in(c, out@[j]) < scan_index_in(c, out@[k]));
        }
        assert forall|l: BlockLocation| #[trigger]
            picks(c, *data, *f, l) implies exists|j: int|
                start <= j < out@.len() && #[trigger] out@[j] == l by {
            lemma_chunk_of_offsets(l);
            lemma_scan_encode(l.x - c.0 * 16, l.y as int, l.z - c.1 * 16);
        }
        assert forall|l: BlockLocation|
            spec_chunk_of(l) == c && level_in_world(l.y as int) implies decided(
                *f,
                #[trigger] local_state(c, *data, l),
            ) by {
            lemma_chunk_of_offsets(l);
            lemma_scan_encode(l.x - c.0 * 16, l.y as int, l.z - c.1 * 16);
        }
    }
}

/// The first position of `v` nearest to `origin`.
fn nearest_of(origin: BlockLocation, v: &Vec<BlockLocation>) -> (r: Option<BlockLocation>)
    ensures
        match r {
            None => v@.len() == 0,
            Some(l) => v@.contains(l) && forall|j: int|
                0 <= j < v@.len() ==> spec_dist2(origin, l) <= spec_dist2(origin, #[trigger] v@[j]),
        },
{
    if v.len() == 0 {
        return None;
    }
    let mut best = v[0];
    let mut best_d = origin.dist2(best);
    let mut i: usize = 1;
    while i < v.len()
        invariant
            1 <= i <= v@.len(),
            v@.contains(best),
            best_d == spec_dist2(origin, best),
            forall|j: int| 0 <= j < i ==> spec_dist2(origin, best) <= spec_dist2(origin, #[trigger] v@[j]),
        decreases v@.len() - i,
    {
        let d = origin.dist2(v[i]);
        if d < best_d {
            best = v[i];
            best_d = d;
        }
        i = i + 1;
    }
    Some(best)
}

impl WorldBlocks {
    /// Whether `l` is a position of a loaded chunk, inside the vertical bound,
    /// whose stored state the selector picks.
    pub open spec fn selected<F: Fn(BlockState) -> bool>(&self, f: F, l: BlockLocation) -> bool {
        &&& self.is_loaded_at(spec_chunk_of(l))
        &&& level_in_world(l.y as int)
        &&& selects(f, self.stored_state(l))
    }

    /// The position of `origin`'s own chunk that the selector picks and that
    /// lies nearest to `origin`. Other chunks are not searched, even where
    /// they hold a nearer match.
    pub fn closest_in_chunk<F: Fn(BlockState) -> bool>(&self, origin: BlockLocation, selector: F) -> (r: Option<BlockLocation>)
        requires
            self.wf(),
            is_selector(selector),
        ensures
            self.is_loaded_at(spec_chunk_of(origin)) ==> forall|l: BlockLocation|
                spec_chunk_of(l) == spec_chunk_of(origin) && level_in_world(l.y as int) ==> decided(
                    selector,
                    #[trigger] self.stored_state(l),
                ),
            match r {
                None => forall|l: BlockLocation|
                    spec_chunk_of(l) == spec_chunk_of(origin) ==> !#[trigger] self.selected(selector, l),
                Some(l) => {
                    &&& spec_chunk_of(l) == spec_chunk_of(origin)
                    &&& self.selected(selector, l)
                    &&& forall|m: BlockLocation|
                        spec_chunk_of(m) == spec_chunk_of(origin) && #[trigger] self.selected(selector, m)
                            ==> spec_dist2(origin, l) <= spec_dist2(origin, m)
                },
            },
    {
        let c = ChunkLocation::from_block(origin);
        let data = match self.get_real_column(c) {
            Some(data) => data,
            None => {
                return None;
            },
        };
        proof {
            self.lemma_loaded_wf(c);
        }
        let mut found: Vec<BlockLocation> = Vec::new();
        collect_chunk(c, data, &selector, &mut found);
        let r = nearest_of(origin, &found);
        proof {
            assert forall|l: BlockLocation|
                spec_chunk_of(l) == c && level_in_world(l.y as int) implies decided(
                    selector,
                    #[trigger] self.stored_state(l),
                ) by {
                assert(local_state(c, *data, l) == self.stored_state(l));
            }
            assert forall|m: BlockLocation|
                spec_chunk_of(m) == c && #[trigger] self.selected(selector, m) implies found@.contains(m) by {
                assert(picks(c, *data, selector, m));
            }
            match r {
                Some(l) => {
                    let j = choose|j: int| 0 <= j < found@.len() && found@[j] == l;
                    assert(picks(c, *data, selector, found@[j]));
                    assert forall|m: BlockLocation|
                        spec_chunk_of(m) == c && #[trigger] self.selected(selector, m)
                            implies spec_dist2(origin, l) <= spec_dist2(origin, m) by {
                        assert(found@.contains(m));
                    }
                },
                None => {
                    assert forall|m: BlockLocation|
                        spec_chunk_of(m) == c implies !#[trigger] self.selected(selector, m) by {
                        if self.selected(selector, m) {
                            assert(found@.contains(m));
                        }
                    }
                },
            }
        }
        r
    }
}

fn in_range(c: ChunkLocation) -> (r: bool)
    ensures
        r == chunk_in_range(c),
{
    -0x800_0000 <= c.0 && c.0 < 0x800_0000 && -0x800_0000 <= c.1 && c.1 < 0x800_0000
}

impl WorldBlocks {
    /// Whether `cs` is a choice of `max_chunks` loaded chunks, or of all of
    /// them where there are fewer.
    pub open spec fn chunk_choice(&self, cs: Set<ChunkLocation>, max_chunks: usize) -> bool {
        &&& cs.finite()
        &&& cs.subset_of(self.loaded_chunks())
        &&& cs.len() == if (max_chunks as int) < self.loaded_chunks().len() {
            max_chunks as nat
        } else {
            self.loaded_chunks().len()
        }
    }

    /// Whether `s` lists, each once, exactly the selected positions of the
    /// chunks in `cs`.
    pub open spec fn is_selection<F: Fn(BlockState) -> bool>(
        &self,
        f: F,
        cs: Set<ChunkLocation>,
        s: Seq<BlockLocation>,
    ) -> bool {
        &&& s.no_duplicates()
        &&& forall|l: BlockLocation| #[trigger]
            s.contains(l) <==> cs.contains(spec_chunk_of(l)) && self.selected(f, l)
        &&& forall|l: BlockLocation|
            cs.contains(spec_chunk_of(l)) && level_in_world(l.y as int) ==> decided(
                f,
                #[trigger] self.stored_state(l),
            )
    }

    /// Every selected position of up to `max_chunks` loaded chunks, taken in
    /// storage order, not by distance to `around`. With a budget that covers
    /// every loaded chunk, every selected position of the store.
    pub fn select<F: Fn(BlockState) -> bool>(
        &self,
        around: BlockLocation,
        max_chunks: usize,
        selector: F,
    ) -> (r: Vec<BlockLocation>)
        requires
            self.wf(),
            is_selector(selector),
        ensures
            exists|cs: Set<ChunkLocation>|
                self.chunk_choice(cs, max_chunks) && self.is_selection(selector, cs, r@),
            max_chunks >= self.loaded_chunks().len() ==> self.is_selection(
                selector,
                self.loaded_chunks(),
                r@,
            ),
    {
        proof {
            self.lemma_chunk_list();
        }
        let n = self.chunk_count();
        let mut out: Vec<BlockLocation> = Vec::new();
        let mut taken: usize = 0;
        let ghost mut cs: Set<ChunkLocation> = Set::empty();
        let mut stop = false;
        let mut j: usize = 0;
        while j < n && !stop
            invariant
                self.wf(),
                is_selector(selector),
                n == self.chunk_list().len(),
                j <= n,
                self.chunk_list().no_duplicates(),
                self.loaded_chunks().finite(),
                cs.finite(),
                cs.subset_of(self.loaded_chunks()),
                cs.len() == taken,
                taken <= max_chunks,
                forall|k: int|
                    0 <= k < j && self.loaded_chunks().contains(#[trigger] self.chunk_list()[k])
                        ==> cs.contains(self.chunk_list()[k]),
                forall|c: ChunkLocation| #[trigger]
                    cs.contains(c) ==> exists|k: int| 0 <= k < j && self.chunk_list()[k] == c,
                stop ==> taken == max_chunks && (max_chunks as int) < self.loaded_chunks().len(),
                self.is_selection(selector, cs, out@),
            decreases n - j, (if stop { 0int } else { 1int }),
        {
            let (c, column) = self.chunk_entry(j);
            match column {
                ChunkColumn::Loaded { data } => {
                    if in_range(c) {
                        assert(self.loaded_chunks().contains(c));
                        assert(!cs.contains(c)) by {
                            if cs.contains(c) {
                                let k = choose|k: int| 0 <= k < j && self.chunk_list()[k] == c;
                            }
                        }
                        if taken == max_chunks {
                            proof {
                                vstd::set_lib::lemma_len_subset(cs.insert(c), self.loaded_chunks());
                            }
                            stop = true;
                        } else {
                            let ghost before = out@;
                            collect_chunk(c, data, &selector, &mut out);
                            proof {
                                assert(self.data_at(c) == *data);
                                assert forall|l: BlockLocation| #[trigger]
                                    out@.contains(l) <==> cs.insert(c).contains(spec_chunk_of(l))
                                        && self.selected(selector, l) by {
                                    if out@.contains(l) {
                                        let k = choose|k: int| 0 <= k < out@.len() && out@[k] == l;
                                        if k < before.len() {
                                            assert(before.contains(l));
                                        } else {
                                            assert(picks(c, *data, selector, out@[k]));
                                        }
                                    }
                                    if cs.insert(c).contains(spec_chunk_of(l)) && self.selected(selector, l) {
                                        if spec_chunk_of(l) == c {
                                            assert(picks(c, *data, selector, l));
                                        } else {
                                            assert(before.contains(l));
                                            let k = choose|k: int| 0 <= k < before.len() && before[k] == l;
                                            assert(out@[k] == l);
                                        }
                                    }
                                }
                                assert forall|a: int, b: int|
                                    0 <= a < out@.len() && 0 <= b < out@.len() && a != b
                                        implies out@[a] != out@[b] by {
                                    if a < before.len() && b < before.len() {
                                    } else if a >= before.len() && b >= before.len() {
                                    } else if a < before.len() {
                                        assert(before.contains(out@[a]));
                                        assert(picks(c, *data, selector, out@[b]));
                                    } else {
                                        assert(before.contains(out@[b]));
                                        assert(picks(c, *data, selector, out@[a]));
                                    }
                                }
                                assert forall|l: BlockLocation|
                                    cs.insert(c).contains(spec_chunk_of(l)) && level_in_world(l.y as int)
                                        implies decided(selector, #[trigger] self.stored_state(l)) by {
                                    if spec_chunk_of(l) == c {
                                        assert(local_state(c, *data, l) == self.stored_state(l));
                                    }
                                }
                                assert forall|c2: ChunkLocation| #[trigger]
                                    cs.insert(c).contains(c2) implies exists|k: int|
                                        0 <= k < j + 1 && self.chunk_list()[k] == c2 by {
                                    if c2 != c {
                                        let k = choose|k: int| 0 <= k < j && self.chunk_list()[k] == c2;
                                    }
                                }
                            }
                            proof {
                                cs = cs.insert(c);
                            }
                            taken = taken + 1;
                        }
                    }
                },
                ChunkColumn::Placeholder => {},
            }
            if !stop {
                j = j + 1;
            }
        }
        proof {
            if !stop {
                assert(cs =~= self.loaded_chunks()) by {
                    assert forall|c: ChunkLocation| #[trigger]
                        self.loaded_chunks().contains(c) implies cs.contains(c) by {
                        assert(self.column(c) is Some);
                        assert(self.chunk_list().contains(c));
                        let k = choose|k: int| 0 <= k < n && self.chunk_list()[k] == c;
                    }
                }
            }
            assert(self.chunk_choice(cs, max_chunks));
        }
        out
    }
}

impl WorldBlocks {
    /// Whether `r` is a position nearest to `origin` among the selected
    /// positions of the chunks in `cs`, or is `None` where there is none.
    pub open spec fn is_nearest<F: Fn(BlockState) -> bool>(
        &self,
        f: F,
        cs: Set<ChunkLocation>,
        origin: BlockLocation,
        r: Option<BlockLocation>,
    ) -> bool {
        &&& forall|l: BlockLocation|
            cs.contains(spec_chunk_of(l)) && level_in_world(l.y as int) ==> decided(
                f,
                #[trigger] self.stored_state(l),
            )
        &&& match r {
            None => forall|l: BlockLocation|
                cs.contains(spec_chunk_of(l)) ==> !#[trigger] self.selected(f, l),
            Some(l) => {
                &&& cs.contains(spec_chunk_of(l))
                &&& self.selected(f, l)
                &&& forall|m: BlockLocation|
                    cs.contains(spec_chunk_of(m)) && #[trigger] self.selected(f, m) ==> spec_dist2(
                        origin,
                        l,
                    ) <= spec_dist2(origin, m)
            },
        }
    }

    /// The selected position nearest to `origin` among up to `max_chunks`
    /// loaded chunks taken in storage order. It is the nearest of the whole
    /// store only where the budget covers every loaded chunk.
    pub fn closest<F: Fn(BlockState) -> bool>(
        &self,
        origin: BlockLocation,
        max_chunks: usize,
        selector: F,
    ) -> (r: Option<BlockLocation>)
        requires
            self.wf(),
            is_selector(selector),
        ensures
            exists|cs: Set<ChunkLocation>|
                self.chunk_choice(cs, max_chunks) && self.is_nearest(selector, cs, origin, r),
            max_chunks >= self.loaded_chunks().len() ==> self.is_nearest(
                selector,
                self.loaded_chunks(),
                origin,
                r,
            ),
    {
        let found = self.select(origin, max_chunks, selector);
        let r = nearest_of(origin, &found);
        proof {
            let cs = choose|cs: Set<ChunkLocation>|
                self.chunk_choice(cs, max_chunks) && self.is_selection(selector, cs, found@);
            lemma_nearest_of_selection(self, selector, cs, origin, found@, r);
            if max_chunks >= self.loaded_chunks().len() {
                lemma_nearest_of_selection(self, selector, self.loaded_chunks(), origin, found@, r);
            }
        }
        r
    }

    /// Whether `s` lists every selected position of the store once each, in
    /// order of non-decreasing distance to `origin`.
    pub open spec fn is_nearest_first<F: Fn(BlockState) -> bool>(
        &self,
        f: F,
        origin: BlockLocation,
        s: Seq<BlockLocation>,
    ) -> bool {
        &&& self.is_selection(f, self.loaded_chunks(), s)
        &&& forall|a: int, b: int|
            0 <= a < b < s.len() ==> spec_dist2(origin, #[trigger] s[a]) <= spec_dist2(
                origin,
                #[trigger] s[b],
            )
    }

    /// Every selected position of the store, nearest to `origin` first. The
    /// search is made once, on the store as it is at the call.
    pub fn closest_iter<F: Fn(BlockState) -> bool>(
        &self,
        origin: BlockLocation,
        selector: F,
    ) -> (r: Vec<BlockLocation>)
        requires
            self.wf(),
            is_selector(selector),
        ensures
            self.is_nearest_first(selector, origin, r@),
    {
        proof {
            self.lemma_chunk_list();
            vstd::set_lib::lemma_len_subset(self.loaded_chunks(), self.chunk_list().to_set());
            self.chunk_list().lemma_cardinality_of_set();
        }
        let budget = self.chunk_count();
        let found = self.select(origin, budget, selector);
        sort_by_distance(origin, &found)
    }
}

/// A nearest element of a selection is a nearest selected position.
proof fn lemma_nearest_of_selection<F: Fn(BlockState) -> bool>(
    w: &WorldBlocks,
    f: F,
    cs: Set<ChunkLocation>,
    origin: BlockLocation,
    s: Seq<BlockLocation>,
    r: Option<BlockLocation>,
)
    requires
        w.is_selection(f, cs, s),
        match r {
            None => s.len() == 0,
            Some(l) => s.contains(l) && forall|j: int|
                0 <= j < s.len() ==> spec_dist2(origin, l) <= spec_dist2(origin, #[trigger] s[j]),
        },
    ensures
        w.is_nearest(f, cs, origin, r),
{
    match r {
        None => {
            assert forall|l: BlockLocation|
                cs.contains(spec_chunk_of(l)) implies !#[trigger] w.selected(f, l) by {
                if w.selected(f, l) {
                    assert(s.contains(l));
                }
            }
        },
        Some(l) => {
            assert(s.contains(l));
            assert forall|m: BlockLocation|
                cs.contains(spec_chunk_of(m)) && #[trigger] w.selected(f, m) implies spec_dist2(
                    origin,
                    l,
                ) <= spec_dist2(origin, m) by {
                assert(s.contains(m));
                let j = choose|j: int| 0 <= j < s.len() && s[j] == m;
            }
        },
    }
}

/// Whether `l` lies at `origin`'s level within Chebyshev distance `radius`
/// of it on the horizontal axes.
pub open spec fn in_slice(origin: BlockLocation, radius: int, l: BlockLocation) -> bool {
    &&& l.y == origin.y
    &&& -radius <= l.x - origin.x <= radius
    &&& -radius <= l.z - origin.z <= radius
}

/// Appends to `out` every position of chunk `c` in the slice around `origin`
/// that the selector picks, each once.
fn collect_level<F: Fn(BlockState) -> bool>(
    c: ChunkLocation,
    data: &ChunkData,
    origin: BlockLocation,
    radius: i32,
    f: &F,
    out: &mut Vec<BlockLocation>,
)
    requires
        chunk_in_range(c),
        data.wf(),
        is_selector(*f),
        level_in_world(origin.y as int),
        0 <= radius,
    ensures
        final(out)@.len() >= old(out)@.len(),
        forall|j: int| 0 <= j < old(out)@.len() ==> #[trigger] final(out)@[j] == old(out)@[j],
        forall|j: int|
            old(out)@.len() <= j < final(out)@.len() ==> picks(c, *data, *f, #[trigger] final(out)@[j])
                && in_slice(origin, radius as int, final(out)@[j]),
        forall|j: int, k: int|
            old(out)@.len() <= j < k < final(out)@.len() ==> #[trigger] final(out)@[j]
                != #[trigger] final(out)@[k],
        forall|l: BlockLocation| #[trigger]
            picks(c, *data, *f, l) && in_slice(origin, radius as int, l) ==> exists|j: int|
                old(out)@.len() <= j < final(out)@.len() && #[trigger] final(out)@[j] == l,
        forall|l: BlockLocation|
            spec_chunk_of(l) == c && in_slice(origin, radius as int, l) ==> decided(
                *f,
                #[trigger] local_state(c, *data, l),
            ),
{
    let ghost start = old(out)@.len();
    let base_x: i32 = c.0 * 16;
    let base_z: i32 = c.1 * 16;
    let y = origin.y as usize;
    let ghost low = y * 256;
    let mut i: usize = 0;
    while i < 256
        invariant
            chunk_in_range(c),
            data.wf(),
            is_selector(*f),
            level_in_world(origin.y as int),
            0 <= radius,
            y == origin.y,
            low == y * 256,
            base_x == c.0 * 16,
            base_z == c.1 * 16,
            i <= 256,
            out@.len() >= start,
            start == old(out)@.len(),
            forall|j: int| 0 <= j < start ==> #[trigger] out@[j] == old(out)@[j],
            forall|j: int|
                start <= j < out@.len() ==> picks(c, *data, *f, #[trigger] out@[j])
                    && in_slice(origin, radius as int, out@[j]) && scan_index_in(c, out@[j]) < low + i,
            forall|j: int, k: int|
                start <= j < k < out@.len() ==> scan_index_in(c, #[trigger] out@[j])
                    < scan_index_in(c, #[trigger] out@[k]),
            forall|l: BlockLocation| #[trigger]
                picks(c, *data, *f, l) && in_slice(origin, radius as int, l) && scan_index_in(c, l)
                    < low + i ==> exists|j: int| start <= j < out@.len() && #[trigger] out@[j] == l,
            forall|l: BlockLocation|
                spec_chunk_of(l) == c && in_slice(origin, radius as int, l) && scan_index_in(c, l)
                    < low + i ==> decided(*f, #[trigger] local_state(c, *data, l)),
        decreases 256 - i,
    {
        let lx = i % 16;
        let lz = i / 16;
        let l = BlockLocation::new(base_x + lx as i32, origin.y, base_z + lz as i32);
        proof {
            lemma_scan_decode(low + i);
            assert((low + i) % 16 == lx && ((low + i) / 16) % 16 == lz && (low + i) / 256 == y) by {
                lemma_scan_encode(lx as int, y as int, lz as int);
            }
            assert(l == spec_position(c, lx as int, y as int, lz as int));
            lemma_chunk_of_offsets(l);
            assert(spec_chunk_of(l) == c) by {
                assert((l.x as int) / 16 == c.0) by {
                    vstd::arithmetic::div_mod::lemma_fundamental_div_mod_converse(
                        l.x as int, 16, c.0 as int, lx as int);
                }
                assert((l.z as int) / 16 == c.1) by {
                    vstd::arithmetic::div_mod::lemma_fundamental_div_mod_converse(
                        l.z as int, 16, c.1 as int, lz as int);
                }
            }
            assert(scan_index_in(c, l) == low + i);
        }
        let dx = l.x as i64 - origin.x as i64;
        let dz = l.z as i64 - origin.z as i64;
        let near = -(radius as i64) <= dx && dx <= radius as i64 && -(radius as i64) <= dz && dz
            <= radius as i64;
        let ghost before = out@;
        let mut chosen = false;
        if near {
            let state = data.get(lx, y, lz);
            chosen = f(state);
            proof {
                if !chosen {
                    assert(f.ensures((state,), false));
                }
                assert(local_state(c, *data, l) == state);
            }
            if chosen {
                out.push(l);
                proof {
                    assert(out@[out@.len() - 1] == l);
                }
            }
        }
        proof {
            assert forall|m: BlockLocation| #[trigger]
                picks(c, *data, *f, m) && in_slice(origin, radius as int, m) && scan_index_in(c, m)
                    < low + i + 1 implies exists|j: int|
                start <= j < out@.len() && #[trigger] out@[j] == m by {
                if scan_index_in(c, m) == low + i {
                    lemma_scan_index_unique(c, m, l);
                    assert(out@[out@.len() - 1] == m);
                } else {
                    let j = choose|j: int| start <= j < before.len() && #[trigger] before[j] == m;
                    assert(out@[j] == m);
                }
            }
            assert forall|m: BlockLocation|
                spec_chunk_of(m) == c && in_slice(origin, radius as int, m) && scan_index_in(c, m)
                    < low + i + 1 implies decided(*f, #[trigger] local_state(c, *data, m)) by {
                if scan_index_in(c, m) == low + i {
                    lemma_scan_index_unique(c, m, l);
                }
            }
        }
        i = i + 1;
    }
    proof {
        assert forall|j: int, k: int|
            start <= j < k < out@.len() implies #[trigger] out@[j] != #[trigger] out@[k] by {
            assert(scan_index_in(c, out@[j]) < scan_index_in(c, out@[k]));
        }
        assert forall|l: BlockLocation| #[trigger]
            picks(c, *data, *f, l) && in_slice(origin, radius as int, l) implies exists|j: int|
                start <= j < out@.len() && #[trigger] out@[j] == l by {
            lemma_chunk_of_offsets(l);
            lemma_scan_encode(l.x - c.0 * 16, l.y as int, l.z - c.1 * 16);
        }
        assert forall|l: BlockLocation|
            spec_chunk_of(l) == c && in_slice(origin, radius as int, l) implies decided(
                *f,
                #[trigger] local_state(c, *data, l),
            ) by {
            lemma_chunk_of_offsets(l);
            lemma_scan_encode(l.x - c.0 * 16, l.y as int, l.z - c.1 * 16);
        }
    }
}

/// Whether chunk `c` meets the square of the slice around `origin`.
pub open spec fn slice_chunk(origin: BlockLocation, radius: int, c: ChunkLocation) -> bool {
    &&& (origin.x - radius) / 16 <= c.0 <= (origin.x + radius) / 16
    &&& (origin.z - radius) / 16 <= c.1 <= (origin.z + radius) / 16
}

/// Floor division by 16 of a wide value.
fn floor_div16_wide(v: i64) -> (r: i32)
    requires
        i32::MIN - 256 <= v <= i32::MAX + 256,
    ensures
        r == v as int / 16,
{
    ((v + 0x1_0000_0000) / 16 - 0x1000_0000) as i32
}

impl WorldBlocks {
    /// Whether every chunk that meets the square of the slice is loaded.
    pub open spec fn slice_resolved(&self, origin: BlockLocation, radius: int) -> bool {
        forall|c: ChunkLocation| #[trigger] slice_chunk(origin, radius, c) ==> self.is_loaded_at(c)
    }

    /// Every position at `origin`'s level within Chebyshev distance `radius`
    /// whose state the selector picks; `None` as soon as one chunk that meets
    /// the square is not loaded, whatever the loaded ones hold.
    pub fn y_slice<F: Fn(BlockState) -> bool>(
        &self,
        origin: BlockLocation,
        radius: u8,
        selector: F,
    ) -> (r: Option<Vec<BlockLocation>>)
        requires
            self.wf(),
            is_selector(selector),
        ensures
            match r {
                None => !self.slice_resolved(origin, radius as int),
                Some(v) => {
                    &&& self.slice_resolved(origin, radius as int)
                    &&& v@.no_duplicates()
                    &&& forall|l: BlockLocation| #[trigger]
                        v@.contains(l) <==> in_slice(origin, radius as int, l) && self.selected(
                            selector,
                            l,
                        )
                    &&& forall|l: BlockLocation|
                        in_slice(origin, radius as int, l) && level_in_world(l.y as int) ==> decided(
                            selector,
                            #[trigger] self.stored_state(l),
                        )
                },
            },
    {
        let r = radius as i32;
        let cx0 = floor_div16_wide(origin.x as i64 - r as i64);
        let cx1 = floor_div16_wide(origin.x as i64 + r as i64);
        let cz0 = floor_div16_wide(origin.z as i64 - r as i64);
        let cz1 = floor_div16_wide(origin.z as i64 + r as i64);
        proof {
            vstd::arithmetic::div_mod::lemma_div_is_ordered(origin.x - r, origin.x + r, 16);
            vstd::arithmetic::div_mod::lemma_div_is_ordered(origin.z - r, origin.z + r, 16);
            assert forall|l: BlockLocation| #[trigger] in_slice(origin, r as int, l) implies slice_chunk(
                origin,
                r as int,
                spec_chunk_of(l),
            ) by {
                vstd::arithmetic::div_mod::lemma_div_is_ordered(origin.x - r, l.x as int, 16);
                vstd::arithmetic::div_mod::lemma_div_is_ordered(l.x as int, origin.x + r, 16);
                vstd::arithmetic::div_mod::lemma_div_is_ordered(origin.z - r, l.z as int, 16);
                vstd::arithmetic::div_mod::lemma_div_is_ordered(l.z as int, origin.z + r, 16);
            }
        }
        let mut out: Vec<BlockLocation> = Vec::new();
        let mut cx = cx0;
        while cx <= cx1
            invariant
                self.wf(),
                is_selector(selector),
                r == radius,
                cx0 == (origin.x - r) / 16,
                cx1 == (origin.x + r) / 16,
                cz0 == (origin.z - r) / 16,
                cz1 == (origin.z + r) / 16,
                cx0 <= cx1,
                cz0 <= cz1,
                -0x800_0010 <= cx0,
                cx1 < 0x800_0010,
                -0x800_0010 <= cz0,
                cz1 < 0x800_0010,
                cx0 <= cx <= cx1 + 1,
                forall|l: BlockLocation| #[trigger] in_slice(origin, r as int, l) ==> slice_chunk(
                    origin,
                    r as int,
                    spec_chunk_of(l),
                ),
                forall|c: ChunkLocation| #[trigger]
                    slice_chunk(origin, r as int, c) && c.0 < cx ==> self.is_loaded_at(c),
                out@.no_duplicates(),
                forall|l: BlockLocation|
                    in_slice(origin, r as int, l) && level_in_world(l.y as int) && spec_chunk_of(l).0 < cx
                        ==> decided(selector, #[trigger] self.stored_state(l)),
                forall|l: BlockLocation| #[trigger]
                    out@.contains(l) <==> in_slice(origin, r as int, l) && self.selected(selector, l)
                        && spec_chunk_of(l).0 < cx,
            decreases cx1 + 1 - cx,
        {
            let mut cz = cz0;
            while cz <= cz1
                invariant
                    self.wf(),
                    is_selector(selector),
                        r == radius,
                    cx0 == (origin.x - r) / 16,
                    cx1 == (origin.x + r) / 16,
                    cz0 == (origin.z - r) / 16,
                    cz1 == (origin.z + r) / 16,
                    cz0 <= cz1,
                    -0x800_0010 <= cx0,
                    cx1 < 0x800_0010,
                    -0x800_0010 <= cz0,
                    cz1 < 0x800_0010,
                    cx0 <= cx <= cx1,
                    cz0 <= cz <= cz1 + 1,
                    forall|c: ChunkLocation| #[trigger]
                        slice_chunk(origin, r as int, c) && (c.0 < cx || (c.0 == cx && c.1 < cz))
                            ==> self.is_loaded_at(c),
                    out@.no_duplicates(),
                    forall|l: BlockLocation|
                        in_slice(origin, r as int, l) && level_in_world(l.y as int) && (spec_chunk_of(l).0
                            < cx || (spec_chunk_of(l).0 == cx && spec_chunk_of(l).1 < cz)) ==> decided(
                            selector,
                            #[trigger] self.stored_state(l),
                        ),
                    forall|l: BlockLocation| #[trigger]
                        out@.contains(l) <==> in_slice(origin, r as int, l) && self.selected(
                            selector,
                            l,
                        ) && (spec_chunk_of(l).0 < cx || (spec_chunk_of(l).0 == cx
                            && spec_chunk_of(l).1 < cz)),
                decreases cz1 + 1 - cz,
            {
                let c = ChunkLocation(cx, cz);
                let data = match self.get_real_column(c) {
                    Some(data) => data,
                    None => {
                        assert(slice_chunk(origin, r as int, c));
                        return None;
                    },
                };
                if !in_range(c) || origin.y < 0 || origin.y >= 256 {
                    // no position of the slice lies in this chunk with a
                    // level that holds data
                    proof {
                        assert forall|l: BlockLocation| #[trigger]
                            out@.contains(l) <==> in_slice(origin, r as int, l) && self.selected(
                                selector,
                                l,
                            ) && (spec_chunk_of(l).0 < cx || (spec_chunk_of(l).0 == cx
                                && spec_chunk_of(l).1 < cz + 1)) by {
                            lemma_chunk_of_offsets(l);
                        }
                        assert forall|l: BlockLocation|
                            in_slice(origin, r as int, l) && level_in_world(l.y as int) && (spec_chunk_of(l).0
                                < cx || (spec_chunk_of(l).0 == cx && spec_chunk_of(l).1 < cz + 1)) implies decided(
                                selector,
                                #[trigger] self.stored_state(l),
                            ) by {
                            lemma_chunk_of_offsets(l);
                        }
                    }
                    cz = cz + 1;
                    continue;
                }
                proof {
                    self.lemma_loaded_wf(c);
                }
                let ghost before = out@;
                collect_level(c, data, origin, r, &selector, &mut out);
                proof {
                    assert forall|l: BlockLocation| #[trigger]
                        out@.contains(l) <==> in_slice(origin, r as int, l) && self.selected(
                            selector,
                            l,
                        ) && (spec_chunk_of(l).0 < cx || (spec_chunk_of(l).0 == cx
                            && spec_chunk_of(l).1 < cz + 1)) by {
                        if out@.contains(l) {
                            let k = choose|k: int| 0 <= k < out@.len() && out@[k] == l;
                            if k < before.len() {
                                assert(before.contains(l));
                            } else {
                                assert(picks(c, *data, selector, out@[k]));
                            }
                        }
                        if in_slice(origin, r as int, l) && self.selected(selector, l) && (spec_chunk_of(l).0 < cx || (spec_chunk_of(l).0 == cx
                            && spec_chunk_of(l).1 < cz + 1)) {
                            if spec_chunk_of(l) == c {
                                assert(picks(c, *data, selector, l));
                            } else {
                                assert(before.contains(l));
                                let k = choose|k: int| 0 <= k < before.len() && before[k] == l;
                                assert(out@[k] == l);
                            }
                        }
                    }
                    assert forall|l: BlockLocation|
                        in_slice(origin, r as int, l) && level_in_world(l.y as int) && (spec_chunk_of(l).0
                            < cx || (spec_chunk_of(l).0 == cx && spec_chunk_of(l).1 < cz + 1)) implies decided(
                            selector,
                            #[trigger] self.stored_state(l),
                        ) by {
                        if spec_chunk_of(l) == c {
                            assert(local_state(c, *data, l) == self.stored_state(l));
                        }
                    }
                    assert forall|a: int, b: int|
                        0 <= a < out@.len() && 0 <= b < out@.len() && a != b implies out@[a]
                            != out@[b] by {
                        if a < before.len() && b < before.len() {
                        } else if a >= before.len() && b >= before.len() {
                        } else if a < before.len() {
                            assert(before.contains(out@[a]));
                            assert(picks(c, *data, selector, out@[b]));
                        } else {
                            assert(before.contains(out@[b]));
                            assert(picks(c, *data, selector, out@[a]));
                        }
                    }
                }
                cz = cz + 1;
            }
            cx = cx + 1;
        }
        Some(out)
    }
}

} // verus!
