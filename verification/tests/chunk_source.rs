use std::cell::Cell;
use std::collections::HashMap;
use std::rc::Rc;
use voxels::array3d::Array;
use voxels::block::Block;
use voxels::chunk::{self, Chunk, Coords};
use voxels::chunk_source::{ChunkMaker, ChunkStore, LoadError, LoadedFrom, Source};
use voxels::chunk_store::Null;
use voxels::math::V3;

fn chunk_of(block: Block) -> Chunk {
    Chunk::new(chunk::Array::new_filled(block))
}

fn at(x: i32, y: i32, z: i32) -> Coords {
    Coords::new(V3::new(x, y, z))
}

fn first(chunk: &Chunk) -> Block {
    *chunk.get(V3::new(0, 0, 0))
}

/// Makes the whole column of four chunks that the asked chunk stands in.
struct Column {
    calls: Rc<Cell<u32>>,
}

impl ChunkMaker for Column {
    fn make(&self, coords: Coords) -> Vec<(Coords, Chunk)> {
        self.calls.set(self.calls.get() + 1);
        let c = coords.unwrap();
        (0..4)
            .map(|z| {
                let block = if z < 2 { Block::Stone } else { Block::Empty };
                (at(c.x, c.y, z), chunk_of(block))
            })
            .collect()
    }
}

struct Fixed(Vec<(Coords, Block)>);

impl ChunkMaker for Fixed {
    fn make(&self, _: Coords) -> Vec<(Coords, Chunk)> {
        self.0.iter().map(|(c, b)| (*c, chunk_of(*b))).collect()
    }
}

struct Shelf(HashMap<Coords, Block>);

impl ChunkStore for Shelf {
    fn load(&mut self, coords: Coords) -> Option<Chunk> {
        self.0.get(&coords).map(|b| chunk_of(*b))
    }

    fn store(&mut self, coords: Coords, chunk: &Chunk) {
        self.0.insert(coords, first(chunk));
    }
}

#[test]
fn load_makes_a_column_and_then_finds_it_in_the_cache() {
    let calls = Rc::new(Cell::new(0));
    let mut source = Source::new(Null::new(), Column { calls: calls.clone() });
    assert!(!source.holds(at(5, 5, 1)));

    let (chunk, from) = source.load(at(5, 5, 1)).unwrap();
    assert_eq!(from, LoadedFrom::Maker);
    assert_eq!(first(&chunk), Block::Stone);
    assert_eq!(calls.get(), 1);
    assert!(source.lent(at(5, 5, 1)));
    for z in 0..4 {
        assert!(source.holds(at(5, 5, z)));
    }
    assert!(!source.lent(at(5, 5, 3)));

    // the rest of the column comes out of the cache
    let (chunk, from) = source.load(at(5, 5, 3)).unwrap();
    assert_eq!(from, LoadedFrom::Cache);
    assert_eq!(first(&chunk), Block::Empty);
    assert_eq!(calls.get(), 1);

    // a chunk brought back is found in the cache as it was brought
    let mut changed = chunk;
    changed.set(V3::new(0, 0, 0), Block::Grass);
    source.store(at(5, 5, 3), changed);
    assert!(!source.lent(at(5, 5, 3)));
    let (chunk, from) = source.load(at(5, 5, 3)).unwrap();
    assert_eq!(from, LoadedFrom::Cache);
    assert_eq!(first(&chunk), Block::Grass);
    assert_eq!(calls.get(), 1);
}

#[test]
fn store_comes_before_the_maker_and_is_not_cached() {
    let calls = Rc::new(Cell::new(0));
    let mut shelf = Shelf(HashMap::new());
    shelf.0.insert(at(1, 2, 3), Block::Soil);
    let mut source = Source::new(shelf, Column { calls: calls.clone() });
    let (chunk, from) = source.load(at(1, 2, 3)).unwrap();
    assert_eq!(from, LoadedFrom::Store);
    assert_eq!(first(&chunk), Block::Soil);
    assert_eq!(calls.get(), 0);
    assert!(!source.holds(at(1, 2, 3)));
    // the store can be asked again
    let (_, from) = source.load(at(1, 2, 3)).unwrap();
    assert_eq!(from, LoadedFrom::Store);
}

#[test]
fn maker_that_leaves_the_chunk_out_is_refused() {
    let mut source = Source::new(Null::new(), Fixed(vec![(at(0, 0, 1), Block::Stone)]));
    assert_eq!(source.load(at(0, 0, 0)).err(), Some(LoadError::Missing));
    assert!(!source.holds(at(0, 0, 1)));
    let mut source = Source::new(Null::new(), Fixed(vec![]));
    assert_eq!(source.load(at(0, 0, 0)).err(), Some(LoadError::Missing));
}

#[test]
fn maker_that_repeats_a_coordinate_is_refused() {
    let made = vec![(at(0, 0, 0), Block::Stone), (at(0, 0, 1), Block::Soil), (at(0, 0, 0), Block::Grass)];
    let mut source = Source::new(Null::new(), Fixed(made));
    assert_eq!(source.load(at(0, 0, 0)).err(), Some(LoadError::Conflict));
    assert!(!source.holds(at(0, 0, 0)));
    assert!(!source.holds(at(0, 0, 1)));
}

#[test]
fn maker_that_makes_what_the_cache_holds_is_refused() {
    let made = vec![(at(0, 0, 0), Block::Stone), (at(0, 0, 1), Block::Soil)];
    let mut source = Source::new(Null::new(), Fixed(made));
    assert!(source.load(at(0, 0, 0)).is_ok());
    // (0, 0, 2) is not cached, and what the maker gives for it is
    assert_eq!(source.load(at(0, 0, 2)).err(), Some(LoadError::Conflict));
    assert!(source.lent(at(0, 0, 0)));
    assert!(source.holds(at(0, 0, 1)));
    assert!(!source.holds(at(0, 0, 2)));
}

#[test]
fn receive_takes_in_all_or_nothing() {
    let mut source = Source::new(Null::new(), Fixed(vec![]));
    let chunk = source
        .receive(at(-1, -2, -3), vec![(at(9, 9, 9), chunk_of(Block::Soil)), (at(-1, -2, -3), chunk_of(Block::Grass))])
        .unwrap();
    assert_eq!(first(&chunk), Block::Grass);
    assert!(source.lent(at(-1, -2, -3)));
    assert!(source.holds(at(9, 9, 9)) && !source.lent(at(9, 9, 9)));
    let refused = source.receive(at(1, 1, 1), vec![(at(1, 1, 1), chunk_of(Block::Soil)), (at(9, 9, 9), chunk_of(Block::Soil))]);
    assert_eq!(refused.err(), Some(LoadError::Conflict));
    assert!(!source.holds(at(1, 1, 1)));
    // coordinates that differ in one component only, or by their sign, are kept apart
    let far = vec![
        (at(1, 0, 0), chunk_of(Block::Stone)),
        (at(0, 1, 0), chunk_of(Block::Soil)),
        (at(0, 0, 1), chunk_of(Block::Grass)),
        (at(-1, 0, 0), chunk_of(Block::TreeTrunk)),
        (at(i32::MIN, i32::MAX, 0), chunk_of(Block::Empty)),
    ];
    let chunk = source.receive(at(0, 1, 0), far).unwrap();
    assert_eq!(first(&chunk), Block::Soil);
    assert_eq!(first(&source.load(at(-1, 0, 0)).unwrap().0), Block::TreeTrunk);
    assert_eq!(first(&source.load(at(0, 0, 1)).unwrap().0), Block::Grass);
    assert_eq!(first(&source.load(at(i32::MIN, i32::MAX, 0)).unwrap().0), Block::Empty);
}

#[test]
fn null_store_holds_nothing() {
    let mut store = Null::new();
    store.store(at(0, 0, 0), &Chunk::new(Array::new_filled(Block::Stone)));
    assert!(store.load(at(0, 0, 0)).is_none());
}
