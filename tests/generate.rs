use swarm_bot::block::{BlockLocation, BlockState};
use swarm_bot::blocks::WorldBlocks;
use swarm_bot::generate::{FLOOR_CELLS, FLOOR_SEED};

#[test]
fn flat_world() {
    let world = WorldBlocks::flat();
    assert_eq!(world.get_block_exact(BlockLocation::new(0, 0, 0)), Some(BlockState::stone()));
    assert_eq!(world.get_block_exact(BlockLocation::new(-100, 0, 100)), Some(BlockState::stone()));
    assert_eq!(world.get_block_exact(BlockLocation::new(0, 1, 0)), Some(BlockState::air()));
    assert_eq!(world.get_block_exact(BlockLocation::new(101, 0, 0)), Some(BlockState::air()));
    assert_eq!(world.get_block_exact(BlockLocation::new(0, 0, 112)), None);
    assert_eq!(
        world.first_below(BlockLocation::new(3, 10, 3)),
        Some((BlockLocation::new(3, 0, 3), BlockState::stone()))
    );
}

fn floor_sample(seed: Option<u64>) -> Vec<Option<BlockState>> {
    let mut world = WorldBlocks::new();
    match seed {
        Some(seed) => world.set_random_floor_seeded(seed),
        None => world.set_random_floor(),
    }
    assert_eq!(world.get_block_exact(BlockLocation::new(0, 0, 0)), Some(BlockState::stone()));
    assert_eq!(world.get_block_exact(BlockLocation::new(950, 0, 950)), Some(BlockState::stone()));
    let mut out = Vec::new();
    let mut x = -1000;
    while x <= 1000 {
        let mut z = -1000;
        while z <= 1000 {
            out.push(world.get_block_exact(BlockLocation::new(x, 0, z)));
            out.push(world.get_block_exact(BlockLocation::new(x, 1, z)));
            z += 37;
        }
        x += 41;
    }
    out
}

#[test]
fn random_floor_is_reproducible() {
    let first = floor_sample(None);
    let second = floor_sample(Some(FLOOR_SEED));
    assert_eq!(first, second);
    let solid = first.iter().filter(|s| **s == Some(BlockState::stone())).count();
    assert!(solid > 0);
    assert!(first.iter().all(|s| s.is_some()));
}

#[test]
fn paste_keeps_last_entry() {
    let mut world = WorldBlocks::new();
    let a = BlockLocation::new(4, 4, 4);
    let b = BlockLocation::new(-20, 4, 4);
    let blocks = vec![(a, BlockState(32)), (b, BlockState(48)), (a, BlockState(64))];
    world.paste(&blocks);
    assert_eq!(world.get_block_exact(a), Some(BlockState(64)));
    assert_eq!(world.get_block_exact(b), Some(BlockState(48)));
    assert_eq!(world.get_block_exact(BlockLocation::new(4, 5, 4)), Some(BlockState::air()));
}

#[test]
fn paste_skips_entries_outside_bound() {
    let mut world = WorldBlocks::new();
    let a = BlockLocation::new(4, 4, 4);
    let blocks = vec![(a, BlockState(32)), (BlockLocation::new(4, 400, 4), BlockState(64))];
    world.paste(&blocks);
    assert_eq!(world.get_block_exact(a), Some(BlockState(32)));
    assert_eq!(world.get_block_exact(BlockLocation::new(4, 400, 4)), Some(BlockState::air()));
}

#[test]
fn floor_follows_the_draws() {
    let mut draws = vec![1i32; FLOOR_CELLS];
    // the cell (x, z) is decided by draw (x + 1000) * 2001 + (z + 1000)
    draws[(5 + 1000) * 2001 + (-7i32 + 1000) as usize] = 0;
    let mut world = WorldBlocks::new();
    world.apply_floor(&draws);
    assert_eq!(world.get_block_exact(BlockLocation::new(5, 0, -7)), Some(BlockState::stone()));
    assert_eq!(world.get_block_exact(BlockLocation::new(-7, 0, 5)), Some(BlockState::air()));
    assert_eq!(world.get_block_exact(BlockLocation::new(0, 0, 0)), Some(BlockState::stone()));
    assert_eq!(world.get_block_exact(BlockLocation::new(950, 0, 950)), Some(BlockState::stone()));
    assert_eq!(world.get_block_exact(BlockLocation::new(1000, 0, 1000)), Some(BlockState::air()));
    assert_eq!(world.get_block_exact(BlockLocation::new(1007, 0, 0)), Some(BlockState::air()));
    assert_eq!(world.get_block_exact(BlockLocation::new(1008, 0, 0)), None);
}

#[test]
fn random_floor_density() {
    let mut world = WorldBlocks::new();
    world.set_random_floor_seeded(7);
    let mut solid = 0;
    for x in -100..100 {
        for z in -100..100 {
            if world.get_block_exact(BlockLocation::new(x, 0, z)) == Some(BlockState::stone()) {
                solid += 1;
            }
        }
    }
    // about one cell in five of these 40000
    assert!(solid > 6000 && solid < 10000, "{}", solid);
}

#[test]
fn y_slice_on_flat_world() {
    let world = WorldBlocks::flat();
    let mut got = world
        .y_slice(BlockLocation::new(0, 0, 0), 1, |s| s == BlockState::stone())
        .unwrap();
    got.sort_by_key(|l| (l.x, l.z));
    let mut expected = Vec::new();
    for x in -1..=1 {
        for z in -1..=1 {
            expected.push(BlockLocation::new(x, 0, z));
        }
    }
    assert_eq!(got, expected);
}
