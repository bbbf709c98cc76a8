use voxels::block::Block;
use voxels::chunk::Coords;
use voxels::chunk_maker::{
    block_at, clamp, in_terrain, make_chunk, make_column, make_empty, make_terrain, Heights,
    CEILING, FLOOR, TREE_MAX, TREE_MIN,
};
use voxels::math::{V2, V3};

#[test]
fn blocks_follow_the_altitude() {
    assert_eq!(block_at(i64::MIN, 0), Block::Stone);
    assert_eq!(block_at(-5, 0), Block::Stone);
    assert_eq!(block_at(-4, 0), Block::Soil);
    assert_eq!(block_at(-1, 0), Block::Soil);
    assert_eq!(block_at(0, 0), Block::Grass);
    assert_eq!(block_at(1, 0), Block::Empty);
    assert_eq!(block_at(1, 1), Block::TreeTrunk);
    assert_eq!(block_at(7, 7), Block::TreeTrunk);
    assert_eq!(block_at(8, 7), Block::Empty);
    assert_eq!(block_at(10, 10), Block::TreeTrunk);
    // no tree reaches above the greatest height of a tree
    assert_eq!(block_at(11, 20), Block::Empty);
    assert_eq!(block_at(i64::MAX, i32::MAX), Block::Empty);
    assert_eq!((TREE_MIN, TREE_MAX), (4, 10));
}

#[test]
fn clamp_keeps_within_bounds() {
    assert_eq!(clamp(5, 0, 15), 5);
    assert_eq!(clamp(-1, 0, 15), 0);
    assert_eq!(clamp(16, 0, 15), 15);
    assert_eq!(clamp(0, 0, 15), 0);
    assert_eq!(clamp(15, 0, 15), 15);
    assert_eq!(clamp(i32::MIN, 4, 10), 4);
    assert_eq!(clamp(i32::MAX, 4, 10), 10);
    // where the bounds cross, the lower one wins
    assert_eq!(clamp(7, 10, 4), 10);
}

#[test]
fn terrain_lies_between_floor_and_ceiling() {
    assert_eq!((FLOOR, CEILING), (-4, 4));
    assert!(!in_terrain(-5));
    assert!(in_terrain(-4));
    assert!(in_terrain(3));
    assert!(!in_terrain(4));
    let made = make_empty(Coords::new(V3::new(1, 2, 9)));
    assert_eq!(made.len(), 1);
    assert_eq!(made[0].0, Coords::new(V3::new(1, 2, 9)));
    assert!(made[0].1.is_empty());
}

#[test]
fn column_holds_the_ground_and_its_trees() {
    let mut ground: Heights = [[0; 16]; 16];
    let mut trees: Heights = [[0; 16]; 16];
    // by y and then by x
    ground[2][1] = 5;
    ground[4][3] = -20;
    trees[0][0] = 6;
    trees[2][1] = 4;
    let column = make_column(V2::new(7, -7), &ground, &trees);
    assert_eq!(column.len(), 8);
    for (i, (coords, _)) in column.iter().enumerate() {
        assert_eq!(*coords, Coords::new(V3::new(7, -7, i as i32 - 4)));
    }
    let block = |x: u8, y: u8, height: i32| {
        let (_, chunk) = &column[(height.div_euclid(16) + 4) as usize];
        *chunk.get(V3::new(x, y, height.rem_euclid(16) as u8))
    };
    // flat ground at height 0, with a tree of six
    assert_eq!(block(0, 0, -64), Block::Stone);
    assert_eq!(block(0, 0, -5), Block::Stone);
    assert_eq!(block(0, 0, -4), Block::Soil);
    assert_eq!(block(0, 0, -1), Block::Soil);
    assert_eq!(block(0, 0, 0), Block::Grass);
    assert_eq!(block(0, 0, 1), Block::TreeTrunk);
    assert_eq!(block(0, 0, 6), Block::TreeTrunk);
    assert_eq!(block(0, 0, 7), Block::Empty);
    assert_eq!(block(0, 0, 63), Block::Empty);
    // no tree
    assert_eq!(block(5, 5, 0), Block::Grass);
    assert_eq!(block(5, 5, 1), Block::Empty);
    // a hill of five with a tree of four on it
    assert_eq!(block(1, 2, 0), Block::Stone);
    assert_eq!(block(1, 2, 1), Block::Soil);
    assert_eq!(block(1, 2, 5), Block::Grass);
    assert_eq!(block(1, 2, 9), Block::TreeTrunk);
    assert_eq!(block(1, 2, 10), Block::Empty);
    assert_eq!(block(2, 1, 5), Block::Empty);
    // a pit of twenty
    assert_eq!(block(3, 4, -25), Block::Stone);
    assert_eq!(block(3, 4, -24), Block::Soil);
    assert_eq!(block(3, 4, -20), Block::Grass);
    assert_eq!(block(3, 4, -19), Block::Empty);
    // the chunk of one layer is that layer of the column
    let layer = make_chunk(0, &ground, &trees);
    assert_eq!(layer.array(), column[4].1.array());
    assert!(column[7].1.is_empty());
    assert!(!column[0].1.is_empty());
}

#[test]
fn terrain_includes_the_chunk_asked_for() {
    let mut ground: Heights = [[0; 16]; 16];
    ground[0][0] = 3;
    let trees: Heights = [[0; 16]; 16];
    for z in [-4, 0, 3] {
        let asked = Coords::new(V3::new(2, -9, z));
        let made = make_terrain(asked, &ground, &trees);
        assert_eq!(made.len(), 8);
        assert_eq!(made.iter().filter(|(coords, _)| *coords == asked).count(), 1);
        let column = make_column(V2::new(2, -9), &ground, &trees);
        for (i, (coords, chunk)) in made.iter().enumerate() {
            assert_eq!(*coords, column[i].0);
            assert_eq!(chunk.array(), column[i].1.array());
        }
    }
    for z in [-5, 4, i32::MIN, i32::MAX] {
        let asked = Coords::new(V3::new(2, -9, z));
        let made = make_terrain(asked, &ground, &trees);
        assert_eq!(made.len(), 1);
        assert_eq!(made[0].0, asked);
        assert!(made[0].1.is_empty());
    }
}
