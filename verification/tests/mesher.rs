use voxels::array3d::{Array, ArrayOwned, StaticDims};
use voxels::block::Block;
use voxels::math::V3;
use voxels::mesher::{Direction, InstancedQuadMeshBuilder, MeshBuilder, Mesher, Simple, RGB};

#[derive(Clone, Default, Debug)]
struct Padded;

impl StaticDims for Padded {
    const X: usize = 17;
    const Y: usize = 17;
    const Z: usize = 17;
}

type Buffer = ArrayOwned<Block, Padded>;

fn hash(x: u8, y: u8, z: u8) -> u8 {
    x.wrapping_mul(251) ^ y.wrapping_mul(199) ^ z.wrapping_mul(151)
}

fn mesh_of(buffer: &Buffer) -> Vec<[u8; 12]> {
    let mut builder = InstancedQuadMeshBuilder::new();
    let mesh = Simple::new().make_mesh(buffer.whole_slice(), &mut builder);
    assert!(builder.quads.is_empty());
    assert_eq!(mesh.n_quads(), mesh.instances.len());
    mesh.instances
}

#[test]
fn all_solid_buffer_has_no_quads() {
    for block in [Block::Stone, Block::Soil, Block::Grass, Block::TreeTrunk] {
        let buffer: Buffer = Array::new_filled(block);
        assert_eq!(mesh_of(&buffer).len(), 0);
    }
}

#[test]
fn all_empty_buffer_has_no_quads() {
    let buffer: Buffer = Array::new_filled(Block::Empty);
    assert_eq!(mesh_of(&buffer).len(), 0);
}

#[test]
fn fresh_buffer_is_empty_along_its_padding() {
    let buffer: Buffer = Array::new_filled(Block::Empty);
    let padding = buffer
        .indexed_iter()
        .into_iter()
        .filter(|(ijk, block)| {
            block.is_empty() && (ijk.x == 16) as u8 + (ijk.y == 16) as u8 + (ijk.z == 16) as u8 >= 2
        })
        .count();
    assert_eq!(padding, 16 * 3 + 1);
}

#[test]
fn lone_block_shows_six_faces() {
    let buffer: Buffer = Array::generate(|ijk| {
        if ijk == V3::new(5, 6, 7) {
            Block::Grass
        } else {
            Block::Empty
        }
    });
    let quads = mesh_of(&buffer);
    let expected: Vec<[u8; 12]> = vec![
        // found from the cells before the block along x, y and z, in
        // row-major order of those cells
        [5, 6, 7, Direction::XIn.code(), 255, 255, 255, 255, 3, 0, 0, 0],
        [5, 6, 7, Direction::YIn.code(), 255, 255, 255, 255, 3, 0, 0, 0],
        [5, 6, 7, Direction::ZIn.code(), 255, 255, 255, 255, 2, 0, 0, 0],
        // found from the block itself: z, then y, then x
        [5, 6, 7, Direction::ZOut.code(), 255, 255, 255, 255, 1, 0, hash(5, 6, 7), 0],
        [5, 6, 7, Direction::YOut.code(), 255, 255, 255, 255, 3, 0, 0, 0],
        [5, 6, 7, Direction::XOut.code(), 255, 255, 255, 255, 3, 0, 0, 0],
    ];
    assert_eq!(quads, expected);
}

#[test]
fn stone_faces_turn_by_the_hash_of_the_cell_they_were_found_from() {
    let buffer: Buffer = Array::generate(|ijk| {
        if ijk == V3::new(1, 2, 3) {
            Block::Stone
        } else {
            Block::Empty
        }
    });
    let quads = mesh_of(&buffer);
    assert_eq!(quads.len(), 6);
    assert_eq!(quads[0], [1, 2, 3, 5, 255, 255, 255, 255, 0, 0, hash(0, 2, 3), 0]);
    assert_eq!(quads[1], [1, 2, 3, 4, 255, 255, 255, 255, 0, 0, hash(1, 1, 3), 0]);
    assert_eq!(quads[2], [1, 2, 3, 3, 255, 255, 255, 255, 0, 0, hash(1, 2, 2), 0]);
    assert_eq!(quads[3], [1, 2, 3, 0, 255, 255, 255, 255, 0, 0, hash(1, 2, 3), 0]);
    assert_eq!(quads[4], [1, 2, 3, 1, 255, 255, 255, 255, 0, 0, hash(1, 2, 3), 0]);
    assert_eq!(quads[5], [1, 2, 3, 2, 255, 255, 255, 255, 0, 0, hash(1, 2, 3), 0]);
}

#[test]
fn padding_closes_the_positive_boundary() {
    // a solid chunk whose neighbours, seen in the padding, are empty
    let buffer: Buffer = Array::generate(|ijk| {
        if ijk.x < 16 && ijk.y < 16 && ijk.z < 16 {
            Block::Soil
        } else {
            Block::Empty
        }
    });
    let quads = mesh_of(&buffer);
    // one face for each cell of the three positive sides, none elsewhere
    assert_eq!(quads.len(), 3 * 16 * 16);
    assert!(quads.iter().all(|q| q[3] <= 2 && q[8] == 2 && q[9] == 0));
    assert!(quads.iter().filter(|q| q[3] == Direction::XOut.code()).all(|q| q[0] == 15));
}

#[test]
fn builder_keeps_quads_in_the_order_added() {
    let mut builder = InstancedQuadMeshBuilder::new();
    builder.add_quad(V3::new(1, 2, 3), Direction::YIn, RGB::new(9, 8, 7), voxels::math::V2::new(4, 5), 6);
    builder.add_quad(V3::new(0, 0, 0), Direction::ZOut, RGB::new(0, 0, 0), voxels::math::V2::new(0, 0), 0);
    let mesh = builder.bake();
    assert_eq!(
        mesh.instances,
        vec![[1, 2, 3, 4, 9, 8, 7, 255, 4, 5, 6, 0], [0, 0, 0, 0, 0, 0, 0, 255, 0, 0, 0, 0]]
    );
    assert_eq!(builder.bake().n_quads(), 0);
}
