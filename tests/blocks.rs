use swarm_bot::block::{BlockApprox, BlockKind, BlockLocation, BlockState, SimpleType};
use swarm_bot::blocks::{WorldBlocks, WorldError};
use swarm_bot::chunk::{ChunkArgsError, ChunkColumn, ChunkData, ChunkLocation};

fn stone() -> BlockState {
    BlockState::stone()
}

fn is_stone(s: BlockState) -> bool {
    s == BlockState::stone()
}

#[test]
fn test_get_set() {
    let mut world = WorldBlocks::default();

    let loc = BlockLocation::new(0, 0, 0);

    {
        world.set_block(loc, BlockState::stone());
        let got = world.get_block(loc);
        assert!(matches!(got, Some(BlockApprox::Realized(s)) if s == BlockState::stone()));
    }

    {
        let up = loc.offset(BlockLocation::new(0, 1, 0));
        let given = BlockState(123);
        world.set_block(up, given);

        let got_up = world.get_block(up);
        assert!(matches!(got_up, Some(BlockApprox::Realized(_given))));

        let got = world.get_block(loc);
        assert!(matches!(got, Some(BlockApprox::Realized(s)) if s == BlockState::stone()));
    }

    {
        world.set_block(loc, BlockState::air());
        let got = world.get_block(loc);
        assert!(matches!(got, Some(BlockApprox::Realized(s)) if s == BlockState::air()));
    }
}

#[test]
fn unknown_chunk_is_unresolved() {
    let world = WorldBlocks::new();
    assert_eq!(world.get_block(BlockLocation::new(5, 5, 5)), None);
    // outside the vertical bound a position is known air, chunk or no chunk
    assert_eq!(
        world.get_block(BlockLocation::new(5, -3, 5)),
        Some(BlockApprox::Realized(BlockState::air()))
    );
    assert_eq!(world.get_block_exact(BlockLocation::new(5, 5, 5)), None);
}

#[test]
fn negative_coordinates_share_a_chunk() {
    let a = ChunkLocation::from_block(BlockLocation::new(-1, 0, -1));
    let b = ChunkLocation::from_block(BlockLocation::new(-16, 7, -16));
    let c = ChunkLocation::from_block(BlockLocation::new(-17, 0, 0));
    assert_eq!(a, ChunkLocation(-1, -1));
    assert_eq!(a, b);
    assert_eq!(c, ChunkLocation(-2, 0));
    assert_eq!(ChunkLocation::from_block(BlockLocation::new(15, 0, 16)), ChunkLocation(0, 1));
}

#[test]
fn write_then_read_at_negative_position() {
    let mut world = WorldBlocks::new();
    let loc = BlockLocation::new(-1, 200, -16);
    world.set_block(loc, BlockState(77));
    assert_eq!(world.get_block(loc), Some(BlockApprox::Realized(BlockState(77))));
    // the rest of the fresh chunk reads as air
    assert_eq!(
        world.get_block(BlockLocation::new(-16, 200, -1)),
        Some(BlockApprox::Realized(BlockState::air()))
    );
    // the neighbouring chunk was never stored
    assert_eq!(world.get_block(BlockLocation::new(0, 200, -16)), None);
}

#[test]
fn write_leaves_other_positions_alone() {
    let mut world = WorldBlocks::new();
    let a = BlockLocation::new(3, 10, 4);
    let b = BlockLocation::new(3, 11, 4);
    world.set_block(a, BlockState(32));
    world.set_block(b, BlockState(48));
    world.set_block(b, BlockState(64));
    assert_eq!(world.get_block_exact(a), Some(BlockState(32)));
    assert_eq!(world.get_block_exact(b), Some(BlockState(64)));
}

#[test]
fn outside_vertical_bound_is_air() {
    let mut world = WorldBlocks::new();
    world.set_block(BlockLocation::new(0, 0, 0), stone());
    assert_eq!(
        world.get_block(BlockLocation::new(0, -1, 0)),
        Some(BlockApprox::Realized(BlockState::air()))
    );
    assert_eq!(
        world.get_block(BlockLocation::new(0, 256, 0)),
        Some(BlockApprox::Realized(BlockState::air()))
    );
    let mut other = WorldBlocks::new();
    other.add_column(ChunkLocation(0, 0), ChunkColumn::Placeholder);
    assert_eq!(other.get_block(BlockLocation::new(0, 5, 0)), None);
    assert_eq!(
        other.get_block(BlockLocation::new(0, 300, 0)),
        Some(BlockApprox::Realized(BlockState::air()))
    );
}

#[test]
fn classification_helpers() {
    let mut world = WorldBlocks::new();
    let loc = BlockLocation::new(1, 1, 1);
    world.set_block(loc, BlockState::water());
    assert_eq!(world.get_block_simple(loc), Some(SimpleType::Water));
    assert_eq!(world.get_block_kind(loc), Some(BlockKind(9)));
    world.set_block(loc, stone());
    assert_eq!(world.get_block_simple(loc), Some(SimpleType::Solid));
    assert_eq!(world.get_block_kind(loc), Some(BlockKind(1)));
    assert_eq!(world.get_block_simple(BlockLocation::new(1, 2, 1)), Some(SimpleType::WalkThrough));
    assert_eq!(world.get_block_simple(BlockLocation::new(100, 2, 1)), None);
    assert_eq!(BlockState(10 * 16).simple_type(), SimpleType::Avoid);
}

#[test]
fn first_below_finds_ground() {
    let mut world = WorldBlocks::new();
    world.set_block(BlockLocation::new(2, 3, 2), stone());
    world.set_block(BlockLocation::new(2, 7, 2), BlockState::water());
    let found = world.first_below(BlockLocation::new(2, 20, 2));
    assert_eq!(found, Some((BlockLocation::new(2, 3, 2), stone())));
    assert_eq!(world.first_below(BlockLocation::new(2, 3, 2)), None);
    assert_eq!(world.first_below(BlockLocation::new(40, 20, 2)), None);
}

#[test]
fn add_column_never_downgrades() {
    let mut world = WorldBlocks::new();
    world.set_block(BlockLocation::new(0, 5, 0), stone());
    world.add_column(ChunkLocation(0, 0), ChunkColumn::Placeholder);
    assert_eq!(world.get_block_exact(BlockLocation::new(0, 5, 0)), Some(stone()));
    world.add_column(ChunkLocation(0, 0), ChunkColumn::empty());
    assert_eq!(world.get_block_exact(BlockLocation::new(0, 5, 0)), Some(BlockState::air()));
}

#[test]
fn modify_missing_chunk_fails() {
    let mut world = WorldBlocks::new();
    let r = world.modify_column(ChunkLocation(3, -2), ChunkColumn::empty());
    assert_eq!(r, Err(WorldError::ChunkNotPresent(ChunkLocation(3, -2))));
    assert_eq!(world.get_block(BlockLocation::new(48, 0, -32)), None);
}

#[test]
fn modify_merges_sections() {
    let mut world = WorldBlocks::new();
    world.set_block(BlockLocation::new(1, 2, 3), stone());
    world.set_block(BlockLocation::new(1, 40, 3), stone());
    let mut update = ChunkData::new();
    update.set(1, 41, 3, BlockState::water());
    let r = world.modify_column(ChunkLocation(0, 0), ChunkColumn::Loaded { data: update });
    assert_eq!(r, Ok(()));
    // the section of levels 32..48 was replaced, the one of levels 0..16 kept
    assert_eq!(world.get_block_exact(BlockLocation::new(1, 2, 3)), Some(stone()));
    assert_eq!(world.get_block_exact(BlockLocation::new(1, 40, 3)), Some(BlockState::air()));
    assert_eq!(world.get_block_exact(BlockLocation::new(1, 41, 3)), Some(BlockState::water()));
    // a placeholder update changes nothing
    let r = world.modify_column(ChunkLocation(0, 0), ChunkColumn::Placeholder);
    assert_eq!(r, Ok(()));
    assert_eq!(world.get_block_exact(BlockLocation::new(1, 2, 3)), Some(stone()));
}

#[test]
fn modify_fills_placeholder() {
    let mut world = WorldBlocks::new();
    world.add_column(ChunkLocation(1, 1), ChunkColumn::Placeholder);
    assert_eq!(world.get_block(BlockLocation::new(17, 0, 17)), None);
    let mut update = ChunkData::new();
    update.set(1, 0, 1, stone());
    assert_eq!(world.modify_column(ChunkLocation(1, 1), ChunkColumn::Loaded { data: update }), Ok(()));
    assert_eq!(world.get_block_exact(BlockLocation::new(17, 0, 17)), Some(stone()));
    assert!(world.get_real_column(ChunkLocation(1, 1)).is_some());
}

#[test]
fn closest_in_chunk_ignores_neighbours() {
    let mut world = WorldBlocks::new();
    world.set_block(BlockLocation::new(0, 10, 0), BlockState::air());
    world.set_block(BlockLocation::new(-1, 10, 0), stone());
    let origin = BlockLocation::new(0, 10, 0);
    assert_eq!(world.closest_in_chunk(origin, is_stone), None);
    world.set_block(BlockLocation::new(15, 10, 15), stone());
    world.set_block(BlockLocation::new(5, 10, 0), stone());
    assert_eq!(world.closest_in_chunk(origin, is_stone), Some(BlockLocation::new(5, 10, 0)));
    assert_eq!(world.closest(origin, usize::MAX, is_stone), Some(BlockLocation::new(-1, 10, 0)));
}

#[test]
fn closest_with_budget() {
    let mut world = WorldBlocks::new();
    world.set_block(BlockLocation::new(100, 0, 0), stone());
    world.set_block(BlockLocation::new(1, 0, 0), stone());
    let origin = BlockLocation::new(0, 0, 0);
    // storage order: the chunk of (100, 0, 0) came first
    assert_eq!(world.closest(origin, 1, is_stone), Some(BlockLocation::new(100, 0, 0)));
    assert_eq!(world.closest(origin, 2, is_stone), Some(BlockLocation::new(1, 0, 0)));
    assert_eq!(world.closest(origin, 0, is_stone), None);
    assert_eq!(world.select(origin, 1, is_stone), vec![BlockLocation::new(100, 0, 0)]);
}

#[test]
fn closest_iter_is_ordered_and_complete() {
    let mut world = WorldBlocks::new();
    let spots = [
        BlockLocation::new(30, 4, -2),
        BlockLocation::new(-3, 4, 0),
        BlockLocation::new(1, 5, 1),
        BlockLocation::new(-40, 9, 70),
        BlockLocation::new(2, 4, 0),
    ];
    for s in spots.iter() {
        world.set_block(*s, stone());
    }
    let origin = BlockLocation::new(0, 4, 0);
    let listed = world.closest_iter(origin, is_stone);
    assert_eq!(
        listed,
        vec![
            BlockLocation::new(1, 5, 1),
            BlockLocation::new(2, 4, 0),
            BlockLocation::new(-3, 4, 0),
            BlockLocation::new(30, 4, -2),
            BlockLocation::new(-40, 9, 70),
        ]
    );
    for w in listed.windows(2) {
        assert!(origin.dist2(w[0]) <= origin.dist2(w[1]));
    }
    let mut selected = world.select(origin, usize::MAX, is_stone);
    let mut sorted = listed.clone();
    selected.sort_by_key(|l| (l.x, l.y, l.z));
    sorted.sort_by_key(|l| (l.x, l.y, l.z));
    assert_eq!(selected, sorted);
}

#[test]
fn distance_is_exact() {
    let a = BlockLocation::new(1, 2, 3);
    let b = BlockLocation::new(-2, 6, 3);
    assert_eq!(a.dist2(b), 25);
    let far = BlockLocation::new(i32::MIN, 0, i32::MIN);
    let near = BlockLocation::new(i32::MAX, 0, i32::MAX);
    assert_eq!(far.dist2(near), 2 * (u32::MAX as i128) * (u32::MAX as i128));
}

#[test]
fn y_slice_needs_every_chunk() {
    let mut world = WorldBlocks::new();
    world.set_block(BlockLocation::new(8, 64, 8), BlockState::air());
    let origin = BlockLocation::new(8, 64, 8);
    // radius 10 reaches the chunks around (0, 0), which are unresolved
    assert_eq!(world.y_slice(origin, 10, is_stone), None);
    // radius 7 stays inside chunk (0, 0), which has no match
    assert_eq!(world.y_slice(origin, 7, is_stone), Some(vec![]));
    world.set_block(BlockLocation::new(10, 64, 5), stone());
    world.set_block(BlockLocation::new(10, 65, 5), stone());
    world.set_block(BlockLocation::new(0, 64, 0), stone());
    assert_eq!(world.y_slice(origin, 7, is_stone), Some(vec![BlockLocation::new(10, 64, 5)]));
    for cx in -1..=1 {
        for cz in -1..=1 {
            if cx != 0 || cz != 0 {
                world.add_column(ChunkLocation(cx, cz), ChunkColumn::empty());
            }
        }
    }
    world.set_block(BlockLocation::new(-2, 64, 17), stone());
    let mut got = world.y_slice(origin, 10, is_stone).unwrap();
    got.sort_by_key(|l| (l.x, l.z));
    assert_eq!(
        got,
        vec![
            BlockLocation::new(-2, 64, 17),
            BlockLocation::new(0, 64, 0),
            BlockLocation::new(10, 64, 5),
        ]
    );
    world.add_column(ChunkLocation(2, 0), ChunkColumn::Placeholder);
    assert!(world.y_slice(origin, 30, is_stone).is_none());
}

#[test]
fn column_access() {
    let mut world = WorldBlocks::new();
    world.set_block(BlockLocation::new(20, 3, 4), stone());
    assert!(world.get_real_column(ChunkLocation(0, 0)).is_none());
    {
        let data = world.get_real_column_mut(ChunkLocation(1, 0)).unwrap();
        assert_eq!(data.get(4, 3, 4), stone());
        data.set(5, 3, 4, BlockState::water());
    }
    assert_eq!(world.get_block_exact(BlockLocation::new(21, 3, 4)), Some(BlockState::water()));
    world.add_column(ChunkLocation(2, 0), ChunkColumn::Placeholder);
    assert!(world.get_real_column_mut(ChunkLocation(2, 0)).is_none());
}

#[test]
fn write_outside_bound_changes_nothing() {
    let mut world = WorldBlocks::new();
    world.set_block(BlockLocation::new(0, 0, 0), stone());
    world.set_block(BlockLocation::new(0, 256, 0), BlockState::water());
    world.set_block(BlockLocation::new(0, -256, 0), BlockState::water());
    world.set_block(BlockLocation::new(40, 300, 40), stone());
    assert!(world.get_real_column(ChunkLocation(2, 2)).is_none());
    world.set_block(BlockLocation::new(40, 3, 40), BlockState::air());
    assert_eq!(world.get_block_exact(BlockLocation::new(0, 0, 0)), Some(stone()));
    assert_eq!(world.get_block_exact(BlockLocation::new(0, 256, 0)), Some(BlockState::air()));
    assert_eq!(
        world.get_block(BlockLocation::new(40, 300, 40)),
        Some(BlockApprox::Realized(BlockState::air()))
    );
    // the write at level 3 is the one that loaded chunk (2, 2)
    assert!(world.get_real_column(ChunkLocation(2, 2)).is_some());
    assert_eq!(world.get_block(BlockLocation::new(40, 3, 56)), None);
}

#[test]
fn failed_merge_creates_nothing() {
    let mut world = WorldBlocks::new();
    let mut update = ChunkData::new();
    update.set(0, 0, 0, stone());
    let r = world.modify_column(ChunkLocation(0, 0), ChunkColumn::Loaded { data: update });
    assert_eq!(r, Err(WorldError::ChunkNotPresent(ChunkLocation(0, 0))));
    assert_eq!(world.get_block(BlockLocation::new(0, 0, 0)), None);
    assert!(world.get_real_column(ChunkLocation(0, 0)).is_none());
}

#[test]
fn y_slice_at_edges() {
    let mut world = WorldBlocks::new();
    world.set_block(BlockLocation::new(3, 0, 3), stone());
    // a level outside the bound holds no data, but every chunk must still be loaded
    assert_eq!(world.y_slice(BlockLocation::new(8, 300, 8), 4, is_stone), Some(vec![]));
    assert_eq!(world.y_slice(BlockLocation::new(8, -1, 8), 20, is_stone), None);
    // a square that reaches past the largest coordinate
    let far = BlockLocation::new(i32::MAX, 5, i32::MAX);
    assert_eq!(world.y_slice(far, 200, is_stone), None);
    world.set_block(far, stone());
    assert_eq!(world.y_slice(far, 0, is_stone), Some(vec![far]));
}

#[test]
fn merge_or_create() {
    let mut world = WorldBlocks::new();
    let mut update = ChunkData::new();
    update.set(2, 40, 2, stone());
    world.merge_column(ChunkLocation(0, 0), ChunkColumn::Loaded { data: update });
    assert_eq!(world.get_block_exact(BlockLocation::new(2, 40, 2)), Some(stone()));
    assert_eq!(world.get_block_exact(BlockLocation::new(2, 3, 2)), Some(BlockState::air()));
    world.set_block(BlockLocation::new(2, 3, 2), stone());
    let mut second = ChunkData::new();
    second.set(2, 41, 2, BlockState::water());
    world.merge_column(ChunkLocation(0, 0), ChunkColumn::Loaded { data: second });
    assert_eq!(world.get_block_exact(BlockLocation::new(2, 3, 2)), Some(stone()));
    assert_eq!(world.get_block_exact(BlockLocation::new(2, 40, 2)), Some(BlockState::air()));
    assert_eq!(world.get_block_exact(BlockLocation::new(2, 41, 2)), Some(BlockState::water()));
}

#[test]
fn chunk_from_arguments() {
    assert_eq!(ChunkLocation::parse_args(&["3", "-2"]), Ok(ChunkLocation(3, -2)));
    assert_eq!(ChunkLocation::parse_args(&["+5", "0"]), Ok(ChunkLocation(5, 0)));
    assert_eq!(ChunkLocation::parse_args(&["+5", "x"]), Err(ChunkArgsError::NotANumber(1)));
    assert_eq!(ChunkLocation::parse_args(&["-", "1"]), Err(ChunkArgsError::NotANumber(0)));
    assert_eq!(ChunkLocation::parse_args(&["99999999999", "1"]), Err(ChunkArgsError::NotANumber(0)));
    assert_eq!(
        ChunkLocation::parse_args(&["1"]),
        Err(ChunkArgsError::WrongArgCount { expected: 2 })
    );
    assert_eq!(
        ChunkLocation::parse_args(&["1", "2", "3"]),
        Err(ChunkArgsError::WrongArgCount { expected: 2 })
    );
}
