use voxels::array3d::Array;
use voxels::block::Block;
use voxels::chunk::{self, BlockCoords, Chunk, Coords, DIM, DIM_LOG2, DIM_MASK, VOLUME};
use voxels::math::V3;

#[test]
fn constants_agree() {
    assert_eq!(DIM, 1 << DIM_LOG2);
    assert_eq!(DIM_MASK, DIM - 1);
    assert_eq!(VOLUME, DIM * DIM * DIM);
}

#[test]
fn chunk_of_a_block_rounds_down() {
    let b = BlockCoords::new(V3::new(0, 15, 16));
    assert_eq!(b.chunk(), Coords::new(V3::new(0, 0, 1)));
    assert_eq!(b.offset(), V3::new(0, 15, 0));
    let b = BlockCoords::new(V3::new(-1, -16, -17));
    assert_eq!(b.chunk(), Coords::new(V3::new(-1, -1, -2)));
    assert_eq!(b.offset(), V3::new(15, 0, 15));
    let b = BlockCoords::new(V3::new(i32::MIN, i32::MAX, 37));
    assert_eq!(b.chunk(), Coords::new(V3::new(-134217728, 134217727, 2)));
    assert_eq!(b.offset(), V3::new(0, 15, 5));
    assert_eq!(b.chunk_and_offset(), (b.chunk(), b.offset()));
}

#[test]
fn chunk_and_offset_give_the_block_back() {
    for x in [-40, -17, -16, -15, -1, 0, 1, 15, 16, 17, 1000] {
        let b = BlockCoords::new(V3::new(x, -x, x * 3));
        let (c, o) = b.chunk_and_offset();
        assert!(o.x < 16 && o.y < 16 && o.z < 16);
        assert_eq!(c.block_at_offset(o), b);
        assert_eq!(c.block_mins() + V3::new(o.x as i32, o.y as i32, o.z as i32), b);
    }
}

#[test]
fn block_mins_is_sixteen_times_the_chunk() {
    assert_eq!(Coords::new(V3::new(1, -1, 0)).block_mins(), BlockCoords::new(V3::new(16, -16, 0)));
    assert_eq!(Coords::origin().block_mins(), BlockCoords::origin());
    assert_eq!(
        Coords::new(V3::new(-3, 2, 7)).block_at_offset(V3::new(1, 2, 3)),
        BlockCoords::new(V3::new(-47, 34, 115))
    );
    // the last chunk and the last block of the grid
    assert_eq!(
        Coords::new(V3::new(0x07ff_ffff, -0x0800_0000, 0)).block_at_offset(V3::new(15, 0, 255)),
        BlockCoords::new(V3::new(i32::MAX, i32::MIN, 255))
    );
    // bits shifted out at the top are lost
    assert_eq!(Coords::new(V3::new(0x0800_0001, 0, 0)).block_mins().unwrap().x, i32::MIN + 16);
}

#[test]
fn coordinates_add_and_subtract() {
    let c = Coords::new(V3::new(1, 2, 3));
    assert_eq!(c + V3::new(1, 1, 1), Coords::new(V3::new(2, 3, 4)));
    assert_eq!(c - V3::new(1, 2, 3), Coords::origin());
    assert_eq!(c - Coords::new(V3::new(-1, -1, -1)), V3::new(2, 3, 4));
    assert_eq!(c.unwrap(), V3::new(1, 2, 3));
    let b = BlockCoords::new(V3::new(5, 5, 5));
    assert_eq!(b + V3::new(0, -5, 1), BlockCoords::new(V3::new(5, 0, 6)));
    assert_eq!(b - BlockCoords::new(V3::new(1, 2, 3)), V3::new(4, 3, 2));
    assert_eq!(b.unwrap(), V3::new(5, 5, 5));
}

#[test]
fn chunk_is_empty_only_without_blocks() {
    let empty = Chunk::new(Array::new_filled(Block::Empty));
    assert!(empty.is_empty());
    let mut one = empty.clone();
    one.set(V3::new(15, 0, 3), Block::Soil);
    assert!(!one.is_empty());
    assert!(empty.is_empty());
    assert_eq!(*one.get(V3::new(15, 0, 3)), Block::Soil);
    assert_eq!(*one.get(V3::new(0, 15, 3)), Block::Empty);
    assert_eq!(*one.array().get(V3::new(15, 0, 3)), Block::Soil);
    assert_eq!(one.array().dims(), V3::new(16, 16, 16));
    assert_eq!(one.array().volume(), VOLUME as usize);
    one.set(V3::new(15, 0, 3), Block::Empty);
    assert!(one.is_empty());
    let solid = Chunk::new(chunk::Array::new_filled(Block::Stone));
    assert!(!solid.is_empty());
}
