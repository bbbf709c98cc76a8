use voxels::block::Block;

#[test]
fn only_the_empty_block_is_empty() {
    assert!(Block::Empty.is_empty());
    assert!(!Block::Empty.is_nonempty());
    for block in [Block::Stone, Block::Soil, Block::Grass, Block::TreeTrunk] {
        assert!(!block.is_empty());
        assert!(block.is_nonempty());
    }
}
