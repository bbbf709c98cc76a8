//! Where chunks come from: the cache first, then the store, then the maker.

use vstd::prelude::*;
use crate::chunk::{Chunk, Coords};
use crate::chunk_cache::{acquired, after_acquire, may_acquire, may_release, Cache, Entry};

verus! {

/// A store of chunks that outlasts the cache.
pub trait ChunkStore {
    /// The chunk stored for `coords`, if there is one.
    fn load(&mut self, coords: Coords) -> Option<Chunk>;

    /// Stores `chunk` for `coords`.
    fn store(&mut self, coords: Coords, chunk: &Chunk);
}

/// A maker of chunks that no store holds yet.
pub trait ChunkMaker {
    /// Makes the chunk at `coords`, and with it any other chunks that are
    /// made along the way, each with its coordinate.
    fn make(&self, coords: Coords) -> Vec<(Coords, Chunk)>;
}

/// Where a loaded chunk came from.
#[derive(Clone, Copy, PartialEq, Eq, Structural, Debug)]
pub enum LoadedFrom {
    Cache,
    Store,
    Maker,
}

/// Why the chunks that the maker made could not be taken in.
#[derive(Clone, Copy, PartialEq, Eq, Structural, Debug)]
pub enum LoadError {
    /// The chunk that was asked for is not among them.
    Missing,
    /// One of them has a coordinate that the cache has an entry for, or that
    /// another of them has too.
    Conflict,
}

/// The key under which the cache holds the chunk at `coords`: the three
/// coordinates, each moved into the range of a `u32`, side by side.
pub open spec fn key_of(coords: Coords) -> u128 {
    ((coords.0.x + 0x8000_0000) * 0x1_0000_0000_0000_0000 + (coords.0.y + 0x8000_0000)
        * 0x1_0000_0000 + (coords.0.z + 0x8000_0000)) as u128
}

/// Distinct coordinates have distinct keys.
pub proof fn lemma_key_injective(a: Coords, b: Coords)
    requires
        key_of(a) == key_of(b),
    ensures
        a == b,
{
    let ax = a.0.x + 0x8000_0000;
    let ay = a.0.y + 0x8000_0000;
    let az = a.0.z + 0x8000_0000;
    let bx = b.0.x + 0x8000_0000;
    let by = b.0.y + 0x8000_0000;
    let bz = b.0.z + 0x8000_0000;
    assert(ax * 0x1_0000_0000_0000_0000 + ay * 0x1_0000_0000 + az == bx * 0x1_0000_0000_0000_0000
        + by * 0x1_0000_0000 + bz);
}

/// The key under which the cache holds the chunk at `coords`.
fn key(coords: Coords) -> (k: u128)
    ensures
        k == key_of(coords),
{
    let x = (coords.0.x as i64 + 0x8000_0000) as u128;
    let y = (coords.0.y as i64 + 0x8000_0000) as u128;
    let z = (coords.0.z as i64 + 0x8000_0000) as u128;
    x * 0x1_0000_0000_0000_0000 + y * 0x1_0000_0000 + z
}

/// The entries of a cache by coordinate.
pub open spec fn by_coords(m: Map<u128, Entry<Chunk>>) -> Map<Coords, Entry<Chunk>> {
    Map::new(|c: Coords| m.contains_key(key_of(c)), |c: Coords| m[key_of(c)])
}

/// Whether the chunks `made` for `coords` can be taken into a cache that
/// holds `m`: their coordinates differ from each other and from those in the
/// cache.
pub open spec fn fresh(m: Map<Coords, Entry<Chunk>>, made: Seq<(Coords, Chunk)>) -> bool {
    &&& forall|i: int| 0 <= i < made.len() ==> !m.contains_key(#[trigger] made[i].0)
    &&& forall|i: int, j: int|
        0 <= i < j < made.len() ==> (#[trigger] made[i]).0 != (#[trigger] made[j]).0
}

/// Whether the chunk at `coords` is among `made`.
pub open spec fn includes(made: Seq<(Coords, Chunk)>, coords: Coords) -> bool {
    exists|i: int| 0 <= i < made.len() && (#[trigger] made[i]).0 == coords
}

/// The cache after the first `n` of the chunks `made` were put into it.
pub open spec fn taken_in(
    m: Map<Coords, Entry<Chunk>>,
    made: Seq<(Coords, Chunk)>,
    n: nat,
) -> Map<Coords, Entry<Chunk>>
    decreases n,
{
    if n == 0 {
        m
    } else {
        taken_in(m, made, (n - 1) as nat).insert(made[n - 1].0, Entry::Cached(made[n - 1].1))
    }
}

/// What asking for `coords` gives once the chunks `made` were taken into a
/// cache that holds `m`: the chunk or the reason why there is none, and
/// what the cache holds then. Nothing is taken in unless all can be and the
/// chunk at `coords` is among them.
pub open spec fn received(
    m: Map<Coords, Entry<Chunk>>,
    coords: Coords,
    made: Seq<(Coords, Chunk)>,
) -> (Result<Chunk, LoadError>, Map<Coords, Entry<Chunk>>) {
    if !fresh(m, made) {
        (Err(LoadError::Conflict), m)
    } else if !includes(made, coords) {
        (Err(LoadError::Missing), m)
    } else {
        let all = taken_in(m, made, made.len());
        (Ok(all[coords]->Cached_0), all.insert(coords, Entry::Borrowed))
    }
}

/// Loads chunks from a cache, else from a store, else from a maker.
pub struct Source<S, M> {
    cache: Cache<u128, Chunk>,
    store: S,
    maker: M,
}

impl<S: ChunkStore, M: ChunkMaker> Source<S, M> {
    /// The cache is well-formed.
    pub closed spec fn wf(&self) -> bool {
        self.cache.wf()
    }

    /// What the cache holds, by coordinate.
    pub closed spec fn cached(&self) -> Map<Coords, Entry<Chunk>> {
        by_coords(self.cache@)
    }

    /// A source with an empty cache.
    pub fn new(store: S, maker: M) -> (r: Self)
        ensures
            r.wf(),
            r.cached() == Map::<Coords, Entry<Chunk>>::empty(),
    {
        let r = Source { cache: Cache::new(), store, maker };
        r
    }

    /// Whether the cache has an entry for `coords`, present or checked out.
    pub fn holds(&self, coords: Coords) -> (r: bool)
        requires
            self.wf(),
        ensures
            r == self.cached().contains_key(coords),
    {
        self.cache.contains(&key(coords))
    }

    /// Takes the chunks `made` into the cache and checks out the one at
    /// `coords`.
    #[verifier::loop_isolation(false)]
    pub fn receive(&mut self, coords: Coords, made: Vec<(Coords, Chunk)>) -> (r: Result<
        Chunk,
        LoadError,
    >)
        requires
            old(self).wf(),
        ensures
            final(self).wf(),
            r == received(old(self).cached(), coords, made@).0,
            final(self).cached() == received(old(self).cached(), coords, made@).1,
    {
        let ghost m = self.cached();
        let mut made = made;
        let ghost all = made@;
        // Nothing is taken in unless all can be.
        let mut found = false;
        let mut i: usize = 0;
        while i < made.len()
            invariant
                self.wf(),
                self.cached() == m,
                made@ == all,
                i <= all.len(),
                forall|a: int| 0 <= a < i ==> !m.contains_key(#[trigger] all[a].0),
                forall|a: int, b: int|
                    0 <= a < b < i ==> (#[trigger] all[a]).0 != (#[trigger] all[b]).0,
                found == (exists|a: int| 0 <= a < i && (#[trigger] all[a]).0 == coords),
            decreases all.len() - i,
        {
            let here = made[i].0;
            if self.holds(here) {
                return Err(LoadError::Conflict);
            }
            let mut j: usize = 0;
            while j < i
                invariant
                    made@ == all,
                    j <= i < all.len(),
                    here == all[i as int].0,
                    forall|a: int| 0 <= a < j ==> (#[trigger] all[a]).0 != here,
                decreases i - j,
            {
                if made[j].0 == here {
                    return Err(LoadError::Conflict);
                }
                j += 1;
            }
            if here == coords {
                found = true;
            }
            i += 1;
        }
        if !found {
            return Err(LoadError::Missing);
        }
        let ghost total = all.len();
        while made.len() > 0
            invariant
                self.wf(),
                fresh(m, all),
                made@ == all.take(made@.len() as int),
                made@.len() <= total == all.len(),
                forall|c: Coords|
                    self.cached().contains_key(c) <==> m.contains_key(c) || exists|a: int|
                        made@.len() <= a < total && (#[trigger] all[a]).0 == c,
                forall|a: int|
                    made@.len() <= a < total ==> self.cached()[(#[trigger] all[a]).0]
                        == Entry::Cached(all[a].1),
                forall|c: Coords| m.contains_key(c) ==> self.cached()[c] == m[c],
            decreases made@.len(),
        {
            let ghost n = made@.len() - 1;
            match made.pop() {
                Some((at, chunk)) => {
                    self.cache.insert(key(at), chunk);
                    proof {
                        assert forall|c: Coords|
                            self.cached().contains_key(c) <==> m.contains_key(c) || exists|a: int|
                                n <= a < total && (#[trigger] all[a]).0 == c by {
                            if c != at {
                                if key_of(c) == key_of(at) {
                                    lemma_key_injective(c, at);
                                }
                            }
                        }
                        assert forall|a: int| n <= a < total implies self.cached()[(
                        #[trigger] all[a]).0] == Entry::Cached(all[a].1) by {
                            if a != n {
                                if key_of(all[a].0) == key_of(at) {
                                    lemma_key_injective(all[a].0, at);
                                }
                            }
                        }
                        assert forall|c: Coords| m.contains_key(c) implies self.cached()[c]
                            == m[c] by {
                            if key_of(c) == key_of(at) {
                                lemma_key_injective(c, at);
                            }
                        }
                    }
                },
                None => {
                    assert(false);
                },
            }
        }
        proof {
            lemma_taken_in(m, all, total);
            let full = taken_in(m, all, total);
            assert forall|c: Coords| #[trigger]
                self.cached().contains_key(c) == full.contains_key(c) by {
                if !m.contains_key(c) && (self.cached().contains_key(c) || full.contains_key(c)) {
                    let a = choose|a: int| 0 <= a < total && (#[trigger] all[a]).0 == c;
                    assert(all[a].0 == c);
                }
            }
            assert forall|c: Coords| #[trigger]
                self.cached().contains_key(c) implies self.cached()[c] == full[c] by {
                if m.contains_key(c) {
                    assert(self.cached()[c] == m[c]);
                }
            }
        }
        let ghost full = self.cache@;
        let r = self.cache.acquire(&key(coords));
        proof {
            assert(self.cached() =~= by_coords(full).insert(coords, Entry::Borrowed)) by {
                assert forall|c: Coords| c != coords implies key_of(c) != key_of(coords) by {
                    if key_of(c) == key_of(coords) {
                        lemma_key_injective(c, coords);
                    }
                }
            }
        }
        match r {
            Some(chunk) => Ok(chunk),
            None => vstd::pervasive::unreached(),
        }
    }
}

impl<S: ChunkStore, M: ChunkMaker> Source<S, M> {
    /// Loads the chunk at `coords`: out of the cache if the cache holds it,
    /// which checks it out; else from the store, if the store has it; else
    /// from the maker, whose chunks are taken into the cache, the one at
    /// `coords` checked out. Fails, and leaves the cache as it was, where
    /// the maker's chunks cannot be taken in.
    pub fn load(&mut self, coords: Coords) -> (r: Result<(Chunk, LoadedFrom), LoadError>)
        requires
            old(self).wf(),
            may_acquire(old(self).cached(), coords),
        ensures
            final(self).wf(),
            match acquired(old(self).cached(), coords) {
                Some(chunk) => {
                    &&& r == Ok::<(Chunk, LoadedFrom), LoadError>((chunk, LoadedFrom::Cache))
                    &&& final(self).cached() == after_acquire(old(self).cached(), coords)
                },
                None => match r {
                    Ok((chunk, LoadedFrom::Cache)) => false,
                    Ok((chunk, LoadedFrom::Store)) => final(self).cached() == old(self).cached(),
                    Ok((chunk, LoadedFrom::Maker)) => exists|made: Seq<(Coords, Chunk)>|
                        #[trigger] received(old(self).cached(), coords, made) == (
                            Ok::<Chunk, LoadError>(chunk),
                            final(self).cached(),
                        ),
                    Err(e) => exists|made: Seq<(Coords, Chunk)>|
                        #[trigger] received(old(self).cached(), coords, made) == (
                            Err::<Chunk, LoadError>(e),
                            final(self).cached(),
                        ) && final(self).cached() == old(self).cached(),
                },
            },
            forall|c: Coords|
                c != coords && old(self).cached().contains_key(c)
                    ==> #[trigger] final(self).cached().contains_key(c)
                    && final(self).cached()[c] == old(self).cached()[c],
            forall|c: Coords|
                c != coords && #[trigger] may_release(final(self).cached(), c) ==> may_release(
                    old(self).cached(),
                    c,
                ),
            !(r matches Ok((_, LoadedFrom::Maker)))
                ==> final(self).cached().dom() =~= old(self).cached().dom(),
    {
        let hit = self.cache.acquire(&key(coords));
        proof {
            assert forall|c: Coords| c != coords implies key_of(c) != key_of(coords) by {
                if key_of(c) == key_of(coords) {
                    lemma_key_injective(c, coords);
                }
            }
        }
        if let Some(chunk) = hit {
            return Ok((chunk, LoadedFrom::Cache));
        }
        if let Some(chunk) = self.store.load(coords) {
            return Ok((chunk, LoadedFrom::Store));
        }
        let made = self.maker.make(coords);
        let ghost all = made@;
        match self.receive(coords, made) {
            Ok(chunk) => {
                proof {
                    assert(received(old(self).cached(), coords, all) == (
                        Ok::<Chunk, LoadError>(chunk),
                        self.cached(),
                    ));
                    lemma_taken_in(old(self).cached(), all, all.len());
                }
                Ok((chunk, LoadedFrom::Maker))
            },
            Err(e) => {
                proof {
                    assert(received(old(self).cached(), coords, all) == (
                        Err::<Chunk, LoadError>(e),
                        self.cached(),
                    ));
                }
                Err(e)
            },
        }
    }

    /// Brings the chunk at `coords`, which was loaded, back into the cache.
    pub fn store(&mut self, coords: Coords, chunk: Chunk)
        requires
            old(self).wf(),
            may_release(old(self).cached(), coords),
        ensures
            final(self).wf(),
            final(self).cached() == old(self).cached().insert(coords, Entry::Cached(chunk)),
    {
        self.cache.release(key(coords), chunk);
        proof {
            assert forall|c: Coords| c != coords implies key_of(c) != key_of(coords) by {
                if key_of(c) == key_of(coords) {
                    lemma_key_injective(c, coords);
                }
            }
        }
    }

    /// Whether the chunk at `coords` is checked out of the cache.
    pub fn lent(&self, coords: Coords) -> (r: bool)
        requires
            self.wf(),
        ensures
            r == may_release(self.cached(), coords),
    {
        self.cache.is_borrowed(&key(coords))
    }
}

/// What a cache holds after chunks with fresh coordinates were taken in:
/// what it held, and each of the chunks under its coordinate.
pub proof fn lemma_taken_in(m: Map<Coords, Entry<Chunk>>, made: Seq<(Coords, Chunk)>, n: nat)
    requires
        fresh(m, made),
        n <= made.len(),
    ensures
        forall|c: Coords|
            taken_in(m, made, n).contains_key(c) <==> m.contains_key(c) || exists|a: int|
                0 <= a < n && (#[trigger] made[a]).0 == c,
        forall|a: int|
            0 <= a < n ==> taken_in(m, made, n)[(#[trigger] made[a]).0] == Entry::Cached(made[a].1),
        forall|c: Coords| m.contains_key(c) ==> taken_in(m, made, n)[c] == m[c],
    decreases n,
{
    if n > 0 {
        lemma_taken_in(m, made, (n - 1) as nat);
        assert(taken_in(m, made, n) == taken_in(m, made, (n - 1) as nat).insert(
            made[n - 1].0,
            Entry::Cached(made[n - 1].1),
        ));
    }
}

} // verus!
