use voxels::array3d::Array;
use voxels::block::Block;
use voxels::chunk::{self, BlockCoords, Chunk, Coords};
use voxels::chunk_source::{ChunkMaker, LoadError, LoadedFrom, Source};
use voxels::chunk_store::Null;
use voxels::game::{
    apply_edit, edit_target, fill_meshing_buffer, place_loaded, refresh_meshes, selection_in_chunk,
    update_chunks,
    Edit, MeshingBuffer, Stage, StageChunk, UpdateError, MAX_LOAD,
};
use voxels::math::V3;
use voxels::mesher::{InstancedQuadMesh, InstancedQuadMeshBuilder, Simple};

fn chunk_of(block: Block) -> Chunk {
    Chunk::new(chunk::Array::new_filled(block))
}

fn at(x: i32, y: i32, z: i32) -> Coords {
    Coords::new(V3::new(x, y, z))
}

fn put<M>(stage: &mut Stage<M>, coords: Coords, block: Block) {
    stage.insert_absolute(coords, StageChunk::new(chunk_of(block)));
}

/// Makes the one chunk that is asked for, of stone.
struct Quarry;

impl ChunkMaker for Quarry {
    fn make(&self, coords: Coords) -> Vec<(Coords, Chunk)> {
        vec![(coords, chunk_of(Block::Stone))]
    }
}

struct Barren;

impl ChunkMaker for Barren {
    fn make(&self, _: Coords) -> Vec<(Coords, Chunk)> {
        Vec::new()
    }
}

#[test]
fn meshing_buffer_takes_the_chunk_and_a_layer_of_each_neighbour() {
    let mut stage: Stage<()> = Stage::new(2, at(3, 3, 3));
    put(&mut stage, at(3, 3, 3), Block::Stone);
    put(&mut stage, at(4, 3, 3), Block::Soil);
    put(&mut stage, at(3, 4, 3), Block::Grass);
    let mut buffer: MeshingBuffer = Array::new_filled(Block::Empty);

    // the neighbour along z is not there yet
    assert_eq!(fill_meshing_buffer(&mut buffer, &stage, V3::new(0, 0, 0)), None);
    assert!(buffer.iter().into_iter().all(|b| b.is_empty()));

    let mut marked = chunk_of(Block::TreeTrunk);
    marked.set(V3::new(2, 3, 0), Block::Stone);
    marked.set(V3::new(2, 3, 1), Block::Soil);
    stage.insert_absolute(at(3, 3, 4), StageChunk::new(marked));
    assert_eq!(fill_meshing_buffer(&mut buffer, &stage, V3::new(0, 0, 0)), Some(()));
    for (ijk, block) in buffer.indexed_iter() {
        let beyond = (ijk.x == 16) as u8 + (ijk.y == 16) as u8 + (ijk.z == 16) as u8;
        let expected = if beyond == 0 {
            Block::Stone
        } else if beyond > 1 {
            Block::Empty
        } else if ijk.x == 16 {
            Block::Soil
        } else if ijk.y == 16 {
            Block::Grass
        } else if ijk.x == 2 && ijk.y == 3 {
            Block::Stone
        } else {
            Block::TreeTrunk
        };
        assert_eq!(*block, expected, "at {:?}", ijk);
    }
    // what is never filled: the edges where two neighbours would meet
    let untouched = buffer.iter().into_iter().filter(|b| b.is_empty()).count();
    assert_eq!(untouched, 16 * 3 + 1);

    // no chunk at the place itself, or a place outside the window
    assert_eq!(fill_meshing_buffer(&mut buffer, &stage, V3::new(1, 0, 0)), None);
    assert_eq!(fill_meshing_buffer(&mut buffer, &stage, V3::new(5, 0, 0)), None);
    assert_eq!(fill_meshing_buffer(&mut buffer, &stage, V3::new(i32::MAX, 0, 0)), None);
    assert_eq!(untouched, buffer.iter().into_iter().filter(|b| b.is_empty()).count());
}

#[test]
fn refresh_meshes_gives_a_mesh_where_all_neighbours_are_there() {
    let mut stage: Stage<usize> = Stage::new(2, Coords::origin());
    for abs in stage.absolute_coords_iter() {
        put(&mut stage, abs, Block::Stone);
    }
    // one chunk of the inside is hollow, one has a mesh already
    put(&mut stage, at(0, 0, 0), Block::Empty);
    stage.at_absolute_mut(at(1, 1, 1)).unwrap().mesh = Some(12345);
    let mut buffer: MeshingBuffer = Array::new_filled(Block::Empty);
    let mut builder = InstancedQuadMeshBuilder::new();
    let finish = |mesh: InstancedQuadMesh| mesh.n_quads();
    refresh_meshes(&mut stage, &mut buffer, &Simple::new(), &mut builder, &finish);
    for abs in stage.absolute_coords_iter() {
        let c = abs.unwrap();
        let mesh = stage.at_absolute(abs).unwrap().mesh;
        let expected = if c.x == 2 || c.y == 2 || c.z == 2 {
            // the last layer of the window lacks a neighbour
            None
        } else if abs == at(1, 1, 1) {
            Some(12345)
        } else if abs == at(0, 0, 0) {
            // the faces of its three neighbours that look into it
            Some(3 * 16 * 16)
        } else if abs == at(-1, 0, 0) || abs == at(0, -1, 0) || abs == at(0, 0, -1) {
            // the face that looks out into the hollow chunk
            Some(16 * 16)
        } else {
            Some(0)
        };
        assert_eq!(mesh, expected, "at {:?}", c);
    }
    // a second pass has nothing left to do
    let counted = std::cell::Cell::new(0);
    let finish = |mesh: InstancedQuadMesh| {
        counted.set(counted.get() + 1);
        mesh.n_quads()
    };
    refresh_meshes(&mut stage, &mut buffer, &Simple::new(), &mut builder, &finish);
    assert_eq!(counted.get(), 0);
}

#[test]
fn edit_throws_away_the_meshes_it_shows_in() {
    let mut stage: Stage<u8> = Stage::new(2, Coords::origin());
    for abs in stage.absolute_coords_iter() {
        put(&mut stage, abs, Block::Stone);
        stage.at_absolute_mut(abs).unwrap().mesh = Some(1);
    }
    let edit = Edit { value: Block::Empty, coords: at(1, 1, 1), offset: V3::new(0, 5, 0) };
    assert!(apply_edit(&mut stage, &edit));
    for abs in stage.absolute_coords_iter() {
        let held = stage.at_absolute(abs).unwrap();
        let dirty = abs == at(1, 1, 1) || abs == at(0, 1, 1) || abs == at(1, 1, 0);
        assert_eq!(held.mesh.is_none(), dirty, "at {:?}", abs.unwrap());
        let edited = if abs == at(1, 1, 1) { Block::Empty } else { Block::Stone };
        assert_eq!(*held.chunk.get(V3::new(0, 5, 0)), edited);
        assert_eq!(*held.chunk.get(V3::new(0, 5, 1)), Block::Stone);
    }
    // away from the first layers only the chunk itself is touched
    let edit = Edit { value: Block::Soil, coords: at(0, 0, 0), offset: V3::new(1, 15, 7) };
    assert!(apply_edit(&mut stage, &edit));
    assert!(stage.at_absolute(at(0, 0, 0)).unwrap().mesh.is_none());
    assert_eq!(*stage.at_absolute(at(0, 0, 0)).unwrap().chunk.get(V3::new(1, 15, 7)), Block::Soil);
    assert!(stage.at_absolute(at(-1, 0, 0)).unwrap().mesh.is_some());
    assert!(stage.at_absolute(at(0, -1, 0)).unwrap().mesh.is_some());
    assert!(stage.at_absolute(at(0, 1, 0)).unwrap().mesh.is_some());
    // at the rim of the window the chunk before is not on the stage
    let edit = Edit { value: Block::Soil, coords: at(-1, -1, -1), offset: V3::new(0, 0, 0) };
    assert!(apply_edit(&mut stage, &edit));
    assert!(stage.at_absolute(at(-1, -1, -1)).unwrap().mesh.is_none());
    assert!(stage.at_absolute(at(2, -1, -1)).unwrap().mesh.is_some());
    // a chunk that the stage does not hold is not edited
    let edit = Edit { value: Block::Soil, coords: at(9, 9, 9), offset: V3::new(0, 0, 0) };
    assert!(!apply_edit(&mut stage, &edit));
}

#[test]
fn edit_target_follows_the_inputs() {
    let kill = BlockCoords::new(V3::new(-1, 17, 40));
    let build = BlockCoords::new(V3::new(-1, 17, 41));
    let player = BlockCoords::new(V3::new(5, 5, 5));
    assert!(edit_target(false, false, kill, build, player).is_none());
    assert!(edit_target(true, true, kill, build, player).is_none());
    let e = edit_target(false, true, kill, build, player).unwrap();
    assert_eq!((e.value, e.coords, e.offset), (Block::Empty, at(-1, 1, 2), V3::new(15, 1, 8)));
    let e = edit_target(true, false, kill, build, player).unwrap();
    assert_eq!((e.value, e.coords, e.offset), (Block::Stone, at(-1, 1, 2), V3::new(15, 1, 9)));
    // not over your own feet, nor your head
    let feet = BlockCoords::new(V3::new(-1, 17, 41));
    assert!(edit_target(true, false, kill, build, feet).is_none());
    let feet = BlockCoords::new(V3::new(-1, 17, 40));
    assert!(edit_target(true, false, kill, build, feet).is_none());
    let feet = BlockCoords::new(V3::new(-1, 17, 39));
    assert!(edit_target(true, false, kill, build, feet).is_some());
    let feet = BlockCoords::new(V3::new(-1, 17, 42));
    assert!(edit_target(true, false, kill, build, feet).is_some());
    let feet = BlockCoords::new(V3::new(-1, 18, 41));
    assert!(edit_target(true, false, kill, build, feet).is_some());
    // smashing goes on under your feet
    assert!(edit_target(false, true, kill, build, kill).is_some());
}

#[test]
fn selection_shows_in_the_chunk_and_next_to_it() {
    let chunk = at(1, -1, 0);
    let sel = |x, y, z| selection_in_chunk(BlockCoords::new(V3::new(x, y, z)), chunk);
    assert_eq!(sel(16, -16, 0), Some(V3::new(0, 0, 0)));
    assert_eq!(sel(31, -1, 15), Some(V3::new(15, 15, 15)));
    assert_eq!(sel(15, -17, -1), Some(V3::new(-1, -1, -1)));
    assert_eq!(sel(32, 0, 16), Some(V3::new(16, 16, 16)));
    assert_eq!(sel(14, -16, 0), None);
    assert_eq!(sel(16, 1, 0), None);
    assert_eq!(sel(16, -16, 17), None);
    assert_eq!(sel(i32::MIN, i32::MAX, 0), None);
}

#[test]
fn update_fills_the_window_ten_made_chunks_at_a_time() {
    assert_eq!(MAX_LOAD, 10);
    let mut stage: Stage<()> = Stage::new(2, Coords::origin());
    let mut source = Source::new(Null::new(), Quarry);
    let mut held = 0;
    for round in 0..7 {
        let made = update_chunks(&mut stage, &mut source, Coords::origin()).unwrap();
        assert_eq!(made, if round < 6 { 10 } else { 4 });
        held += made;
        let now = stage.absolute_coords_iter().into_iter().filter(|abs| stage.at_absolute(*abs).is_some()).count();
        assert_eq!(now, held);
    }
    assert_eq!(held, 64);
    assert_eq!(update_chunks(&mut stage, &mut source, Coords::origin()), Ok(0));
    for abs in stage.absolute_coords_iter() {
        assert!(source.lent(abs));
    }

    // one step along x: a face leaves for the cache, another is made
    assert_eq!(update_chunks(&mut stage, &mut source, at(1, 0, 0)), Ok(10));
    assert_eq!(update_chunks(&mut stage, &mut source, at(1, 0, 0)), Ok(6));
    for y in -1..3 {
        for z in -1..3 {
            assert!(source.holds(at(-1, y, z)) && !source.lent(at(-1, y, z)));
            assert!(source.lent(at(3, y, z)));
            assert!(stage.at_absolute(at(3, y, z)).is_some());
        }
    }
    // and back: everything comes out of the cache, nothing is made
    assert_eq!(update_chunks(&mut stage, &mut source, Coords::origin()), Ok(0));
    for abs in stage.absolute_coords_iter() {
        assert!(stage.at_absolute(abs).is_some());
        assert!(source.lent(abs));
    }
    for y in -1..3 {
        for z in -1..3 {
            assert!(!source.lent(at(3, y, z)));
        }
    }
}

#[test]
fn update_stops_where_the_discipline_is_broken() {
    // a chunk that did not come from the source cannot go back to it
    let mut stage: Stage<()> = Stage::new(1, Coords::origin());
    let mut source = Source::new(Null::new(), Quarry);
    put(&mut stage, at(0, 0, 0), Block::Soil);
    assert_eq!(update_chunks(&mut stage, &mut source, at(2, 0, 0)), Err(UpdateError::NotLent(at(0, 0, 0))));

    // a chunk that is checked out already cannot be loaded again
    let mut stage: Stage<()> = Stage::new(1, Coords::origin());
    let mut source = Source::new(Null::new(), Quarry);
    assert!(source.load(at(1, 1, 1)).is_ok());
    assert_eq!(update_chunks(&mut stage, &mut source, Coords::origin()), Err(UpdateError::Lent(at(1, 1, 1))));

    // a maker that makes nothing
    let mut stage: Stage<()> = Stage::new(1, Coords::origin());
    let mut source = Source::new(Null::new(), Barren);
    assert_eq!(
        update_chunks(&mut stage, &mut source, Coords::origin()),
        Err(UpdateError::Load(at(0, 0, 0), LoadError::Missing))
    );
    assert!(stage.at_absolute(at(0, 0, 0)).is_none());
}

#[test]
fn update_stops_at_the_first_entry_that_cannot_be_taken() {
    // the chunks before the one that is checked out are loaded, those after are not
    let mut stage: Stage<()> = Stage::new(1, Coords::origin());
    let mut source = Source::new(Null::new(), Quarry);
    assert!(source.load(at(0, 1, 0)).is_ok());
    assert_eq!(update_chunks(&mut stage, &mut source, Coords::origin()), Err(UpdateError::Lent(at(0, 1, 0))));
    assert!(stage.at_absolute(at(0, 0, 0)).is_some());
    assert!(stage.at_absolute(at(0, 0, 1)).is_some());
    assert!(stage.at_absolute(at(0, 1, 0)).is_none());
    assert!(stage.at_absolute(at(0, 1, 1)).is_none());
    assert!(stage.at_absolute(at(1, 0, 0)).is_none());
    assert!(source.lent(at(0, 0, 0)) && source.lent(at(0, 0, 1)));
    assert!(!source.holds(at(0, 1, 1)));
}

#[test]
fn update_makes_nothing_when_the_cache_holds_all() {
    let mut stage: Stage<()> = Stage::new(1, Coords::origin());
    let mut source = Source::new(Null::new(), Quarry);
    assert_eq!(update_chunks(&mut stage, &mut source, Coords::origin()), Ok(8));
    // far away and back: what left comes back out of the cache
    assert_eq!(update_chunks(&mut stage, &mut source, at(100, 0, 0)), Ok(8));
    for abs in [at(0, 0, 0), at(1, 1, 1)] {
        assert!(source.holds(abs) && !source.lent(abs));
    }
    assert_eq!(update_chunks(&mut stage, &mut source, Coords::origin()), Ok(0));
    for abs in stage.absolute_coords_iter() {
        assert!(stage.at_absolute(abs).is_some());
        assert!(source.lent(abs));
    }
    assert!(source.holds(at(100, 0, 0)) && !source.lent(at(100, 0, 0)));
    // an update with nothing to do does nothing
    assert_eq!(update_chunks(&mut stage, &mut source, Coords::origin()), Ok(0));
}

#[test]
fn place_loaded_counts_what_was_made() {
    let mut stage: Stage<u8> = Stage::new(1, Coords::origin());
    assert_eq!(place_loaded(&mut stage, at(1, 0, 1), chunk_of(Block::Soil), LoadedFrom::Maker, 3), 4);
    assert_eq!(place_loaded(&mut stage, at(0, 0, 1), chunk_of(Block::Grass), LoadedFrom::Cache, 3), 3);
    assert_eq!(place_loaded(&mut stage, at(0, 1, 1), chunk_of(Block::Stone), LoadedFrom::Store, 0), 0);
    let held = stage.at_absolute(at(1, 0, 1)).unwrap();
    assert!(held.mesh.is_none());
    assert_eq!(*held.chunk.get(V3::new(0, 0, 0)), Block::Soil);
    assert_eq!(*stage.at_absolute(at(0, 0, 1)).unwrap().chunk.get(V3::new(3, 3, 3)), Block::Grass);
    // outside the window nothing is put
    assert_eq!(place_loaded(&mut stage, at(5, 5, 5), chunk_of(Block::Stone), LoadedFrom::Maker, 9), 10);
    assert!(stage.at_absolute(at(5, 5, 5)).is_none());
}
