//! What the game decides about its chunks between the drawing and the input:
//! which blocks a meshing buffer holds, which chunks need a mesh, and what
//! an edit invalidates.

use vstd::prelude::*;
use crate::array3d::{in_box, lemma_overwritten_cell};
use crate::block::Block;
use crate::chunk::{BlockCoords, Chunk, Coords};
use crate::math::{V3, V3i32, V3i8, V3u8, V3usize};
use crate::math::iter::{box_points, cells, rank, widths, SpaceIter};
use crate::mesher::{meshable, Mesh, Mesher, MeshBuilder, Quad};
use crate::chunk_cache::{acquired, after_acquire, may_acquire, may_release, Entry};
use crate::chunk_source::{ChunkMaker, ChunkStore, LoadError, LoadedFrom, Source};
use crate::stage;
use crate::stage::{lemma_report, Element, StageView, StaleChunk};

pub mod meshing_buffer;

verus! {

/// A chunk on the stage, with its mesh if it has one that is up to date.
pub struct StageChunk<M> {
    pub chunk: Chunk,
    pub mesh: Option<M>,
}

impl<M> StageChunk<M> {
    /// A chunk that has yet to be meshed.
    pub fn new(chunk: Chunk) -> (r: StageChunk<M>)
        ensures
            r.chunk == chunk,
            r.mesh is None,
    {
        StageChunk { chunk, mesh: None }
    }
}

pub type Stage<M> = stage::Stage<StageChunk<M>>;

pub type MeshingBuffer = meshing_buffer::Buffer;

/// The block that the meshing buffer holds at `ijk` once it was filled for
/// the chunk `c0` whose neighbours along x, y and z are `cx`, `cy` and `cz`:
/// the chunk's own block inside the chunk's extent; the neighbour's block of
/// its first layer, just beyond the chunk along one axis; and `old`, what
/// the buffer held, along the edges where two neighbours would meet.
pub open spec fn filled_block(
    old: Block,
    c0: Chunk,
    cx: Chunk,
    cy: Chunk,
    cz: Chunk,
    ijk: V3<usize>,
) -> Block {
    if ijk.x < 16 && ijk.y < 16 && ijk.z < 16 {
        c0.at(ijk)
    } else if ijk.x == 16 && ijk.y < 16 && ijk.z < 16 {
        cx.at(V3 { x: 0, y: ijk.y, z: ijk.z })
    } else if ijk.x < 16 && ijk.y == 16 && ijk.z < 16 {
        cy.at(V3 { x: ijk.x, y: 0, z: ijk.z })
    } else if ijk.x < 16 && ijk.y < 16 && ijk.z == 16 {
        cz.at(V3 { x: ijk.x, y: ijk.y, z: 0 })
    } else {
        old
    }
}

/// The relative coordinate one step on from `rel` along each axis in turn.
pub open spec fn step(rel: V3<int>, axis: int) -> V3<int> {
    if axis == 0 {
        V3 { x: rel.x + 1, y: rel.y, z: rel.z }
    } else if axis == 1 {
        V3 { x: rel.x, y: rel.y + 1, z: rel.z }
    } else {
        V3 { x: rel.x, y: rel.y, z: rel.z + 1 }
    }
}

/// Whether the stage holds the chunk that lies `rel` from its centre and
/// that chunk's three neighbours on its positive sides.
pub open spec fn can_fill<M>(stage: stage::StageView<StageChunk<M>>, rel: V3<int>) -> bool {
    &&& stage.content_rel(rel) is Some
    &&& stage.content_rel(step(rel, 0)) is Some
    &&& stage.content_rel(step(rel, 1)) is Some
    &&& stage.content_rel(step(rel, 2)) is Some
}

/// Copies the box of extent `dims` at the origin of `src` to the box at
/// `offset` of `buffer`.
fn copy_box(buffer: &mut MeshingBuffer, offset: V3usize, src: &Chunk, dims: V3usize)
    requires
        old(buffer).wf(),
        dims.x <= 16 && dims.y <= 16 && dims.z <= 16,
        offset.x + dims.x <= 17 && offset.y + dims.y <= 17 && offset.z + dims.z <= 17,
    ensures
        final(buffer).wf(),
        forall|ijk: V3<usize>|
            final(buffer).has(ijk) ==> #[trigger] final(buffer).at(ijk) == if in_box(
                offset,
                dims,
                ijk,
            ) {
                src.at(ijk.minus(offset))
            } else {
                old(buffer).at(ijk)
            },
{
    let from = src.array();
    proof {
        meshing_buffer::lemma_layout(*buffer);
    }
    let view = from.slice(V3::zeros(), dims);
    let ghost l = buffer.layout();
    let ghost before = buffer.backing();
    let mut target = buffer.slice_mut(offset, dims);
    target.copy_from(&view);
    proof {
        assert forall|ijk: V3<usize>| buffer.has(ijk) implies #[trigger] buffer.at(ijk) == if in_box(
            offset,
            dims,
            ijk,
        ) {
            src.at(ijk.minus(offset))
        } else {
            old(buffer).at(ijk)
        } by {
            lemma_overwritten_cell(before, l, offset, view.backing(), view.layout(), ijk);
            if in_box(offset, dims, ijk) {
                let inner = ijk.minus(offset);
                assert(view.at(inner) == from.at(inner));
            }
        }
    }
}

/// Fills the meshing buffer for the chunk that lies `rel` from the centre of
/// the stage: with the chunk, and beyond it with the first layer of each of
/// its neighbours on its positive sides. Gives `None`, and leaves the buffer
/// as it is, unless the stage holds all four chunks.
pub fn fill_meshing_buffer<M>(buffer: &mut MeshingBuffer, stage: &Stage<M>, rel: V3i32) -> (r:
    Option<()>)
    requires
        old(buffer).wf(),
        stage.wf(),
    ensures
        final(buffer).wf(),
        r is Some <==> can_fill(stage@, rel.ints()),
        r is Some ==> forall|ijk: V3<usize>|
            final(buffer).has(ijk) ==> #[trigger] final(buffer).at(ijk) == filled_block(
                old(buffer).at(ijk),
                stage@.content_rel(rel.ints())->Some_0.chunk,
                stage@.content_rel(step(rel.ints(), 0))->Some_0.chunk,
                stage@.content_rel(step(rel.ints(), 1))->Some_0.chunk,
                stage@.content_rel(step(rel.ints(), 2))->Some_0.chunk,
                ijk,
            ),
        r is None ==> final(buffer).backing() == old(buffer).backing(),
{
    proof {
        stage.lemma_wf();
    }
    let c0 = match stage.at_relative(rel) {
        Some(c) => &c.chunk,
        None => {
            return None;
        },
    };
    // A chunk at the rim of the range of coordinates has no neighbour.
    if rel.x == i32::MAX || rel.y == i32::MAX || rel.z == i32::MAX {
        return None;
    }
    let cx = match stage.at_relative(V3 { x: rel.x + 1, y: rel.y, z: rel.z }) {
        Some(c) => &c.chunk,
        None => {
            return None;
        },
    };
    let cy = match stage.at_relative(V3 { x: rel.x, y: rel.y + 1, z: rel.z }) {
        Some(c) => &c.chunk,
        None => {
            return None;
        },
    };
    let cz = match stage.at_relative(V3 { x: rel.x, y: rel.y, z: rel.z + 1 }) {
        Some(c) => &c.chunk,
        None => {
            return None;
        },
    };
    copy_box(buffer, V3::new(0, 0, 0), c0, V3::new(16, 16, 16));
    copy_box(buffer, V3::new(16, 0, 0), cx, V3::new(1, 16, 16));
    copy_box(buffer, V3::new(0, 16, 0), cy, V3::new(16, 1, 16));
    copy_box(buffer, V3::new(0, 0, 16), cz, V3::new(16, 16, 1));
    Some(())
}

/// What an edit does: the block to put, the chunk to put it in, and where
/// in that chunk.
pub struct Edit {
    pub value: Block,
    pub coords: Coords,
    pub offset: V3u8,
}

/// Whether a block built at `build_block` would stand where the player
/// stands, whose feet are in `player_block`: in that block or the one above.
pub open spec fn underfoot(build_block: BlockCoords, player_block: BlockCoords) -> bool {
    &&& build_block.0.x == player_block.0.x
    &&& build_block.0.y == player_block.0.y
    &&& 0 <= build_block.0.z - player_block.0.z <= 1
}

/// The edit that the inputs ask for. To build and to smash at once, or to do
/// neither, asks for nothing. To smash empties `kill_block`. To build puts
/// stone at `build_block`, unless the player stands there.
pub fn edit_target(
    build: bool,
    smash: bool,
    kill_block: BlockCoords,
    build_block: BlockCoords,
    player_block: BlockCoords,
) -> (r: Option<Edit>)
    ensures
        r is Some <==> build != smash && !(build && underfoot(build_block, player_block)),
        r matches Some(e) ==> {
            let target = if build {
                build_block
            } else {
                kill_block
            };
            &&& e.value == if build {
                Block::Stone
            } else {
                Block::Empty
            }
            &&& e.coords.0.ints() == (V3 {
                x: target.0.x as int / 16,
                y: target.0.y as int / 16,
                z: target.0.z as int / 16,
            })
            &&& e.offset.ints() == (V3 {
                x: target.0.x as int % 16,
                y: target.0.y as int % 16,
                z: target.0.z as int % 16,
            })
        },
{
    if build == smash {
        return None;
    }
    if build {
        if build_block.0.x == player_block.0.x && build_block.0.y == player_block.0.y {
            let dz = build_block.0.z as i64 - player_block.0.z as i64;
            if 0 <= dz && dz <= 1 {
                // don't build over your own feet
                return None;
            }
        }
        let (coords, offset) = build_block.chunk_and_offset();
        Some(Edit { value: Block::Stone, coords, offset })
    } else {
        let (coords, offset) = kill_block.chunk_and_offset();
        Some(Edit { value: Block::Empty, coords, offset })
    }
}

/// Where the selected block lies from the least block of a chunk, if it
/// lies in the chunk or next to it: no more than one block before it and no
/// more than one past it along each axis.
pub fn selection_in_chunk(selected: BlockCoords, chunk: Coords) -> (r: Option<V3i8>)
    requires
        fits_chunk(chunk),
    ensures
        ({
            let d = V3 {
                x: selected.0.x - 16 * chunk.0.x,
                y: selected.0.y - 16 * chunk.0.y,
                z: selected.0.z - 16 * chunk.0.z,
            };
            if -1 <= d.x <= 16 && -1 <= d.y <= 16 && -1 <= d.z <= 16 {
                r == Some(V3 { x: d.x as i8, y: d.y as i8, z: d.z as i8 })
            } else {
                r is None
            }
        }),
{
    let mins = chunk.block_mins();
    let dx = selected.0.x as i64 - mins.0.x as i64;
    let dy = selected.0.y as i64 - mins.0.y as i64;
    let dz = selected.0.z as i64 - mins.0.z as i64;
    if -1 <= dx && dx <= 16 && -1 <= dy && dy <= 16 && -1 <= dz && dz <= 16 {
        Some(V3 { x: dx as i8, y: dy as i8, z: dz as i8 })
    } else {
        None
    }
}

/// Whether the blocks of the chunk at `chunk` have coordinates in the range
/// of `i32`.
pub open spec fn fits_chunk(chunk: Coords) -> bool {
    &&& i32::MIN <= 16 * chunk.0.x && 16 * chunk.0.x + 15 <= i32::MAX
    &&& i32::MIN <= 16 * chunk.0.y && 16 * chunk.0.y + 15 <= i32::MAX
    &&& i32::MIN <= 16 * chunk.0.z && 16 * chunk.0.z + 15 <= i32::MAX
}

/// The stage with the mesh of the chunk at `abs` thrown away, if the stage
/// holds that chunk.
pub open spec fn dirtied<M>(v: StageView<StageChunk<M>>, abs: Coords) -> StageView<StageChunk<M>> {
    match v.content(abs) {
        Some(c) => v.with_slot(
            abs,
            Element { coords: abs, content: Some(StageChunk { chunk: c.chunk, mesh: None }) },
        ),
        None => v,
    }
}

/// The chunk before the chunk at `coords` along the given axis, across the
/// face that a block at `offset` touches; `None` where the block touches no
/// such face, or where there is no coordinate before `coords`.
pub open spec fn touched(coords: Coords, offset: V3<u8>, axis: int) -> Option<Coords> {
    if axis == 0 {
        if offset.x == 0 && coords.0.x > i32::MIN {
            Some(Coords(V3 { x: (coords.0.x - 1) as i32, y: coords.0.y, z: coords.0.z }))
        } else {
            None
        }
    } else if axis == 1 {
        if offset.y == 0 && coords.0.y > i32::MIN {
            Some(Coords(V3 { x: coords.0.x, y: (coords.0.y - 1) as i32, z: coords.0.z }))
        } else {
            None
        }
    } else {
        if offset.z == 0 && coords.0.z > i32::MIN {
            Some(Coords(V3 { x: coords.0.x, y: coords.0.y, z: (coords.0.z - 1) as i32 }))
        } else {
            None
        }
    }
}

/// The stage with the mesh thrown away of the chunk, if any, that `touched`
/// names for the axis.
pub open spec fn dirtied_across<M>(
    v: StageView<StageChunk<M>>,
    coords: Coords,
    offset: V3<u8>,
    axis: int,
) -> StageView<StageChunk<M>> {
    match touched(coords, offset, axis) {
        Some(abs) => dirtied(v, abs),
        None => v,
    }
}

/// Throws away the mesh of the chunk at `abs`, if the stage holds that
/// chunk.
fn dirty<M>(stage: &mut Stage<M>, abs: Coords)
    requires
        old(stage).wf(),
    ensures
        final(stage).wf(),
        final(stage)@.center == old(stage)@.center,
        final(stage)@.width == old(stage)@.width,
        final(stage)@.slots =~= dirtied(old(stage)@, abs).slots,
{
    if let Some(chunk) = stage.at_absolute_mut(abs) {
        chunk.mesh = None;
    }
}

/// Puts the block of `edit` in its place, if the stage holds the chunk, and
/// says whether it did. The chunk loses its mesh, and so does each chunk
/// before it across a face that the block touches: a block in the first
/// layer of its chunk along an axis shows in the mesh of the chunk before.
pub fn apply_edit<M>(stage: &mut Stage<M>, edit: &Edit) -> (done: bool)
    requires
        old(stage).wf(),
        edit.offset.x < 16 && edit.offset.y < 16 && edit.offset.z < 16,
    ensures
        final(stage).wf(),
        final(stage)@.center == old(stage)@.center,
        final(stage)@.width == old(stage)@.width,
        done == (old(stage)@.content(edit.coords) is Some),
        !done ==> final(stage)@.slots =~= old(stage)@.slots,
        done ==> {
            let at = V3 {
                x: edit.offset.x as usize,
                y: edit.offset.y as usize,
                z: edit.offset.z as usize,
            };
            let was = old(stage)@.content(edit.coords)->Some_0;
            &&& final(stage)@.content(edit.coords) matches Some(now) && now.mesh is None
                && forall|ijk: V3<usize>|
                Chunk::has(ijk) ==> #[trigger] now.chunk.at(ijk) == if ijk == at {
                    edit.value
                } else {
                    was.chunk.at(ijk)
                }
            &&& final(stage)@.slots =~= dirtied_across(
                dirtied_across(
                    dirtied_across(
                        old(stage)@.with_slot(
                            edit.coords,
                            Element {
                                coords: edit.coords,
                                content: final(stage)@.content(edit.coords),
                            },
                        ),
                        edit.coords,
                        edit.offset,
                        0,
                    ),
                    edit.coords,
                    edit.offset,
                    1,
                ),
                edit.coords,
                edit.offset,
                2,
            ).slots
        },
{
    let coords = edit.coords;
    let offset = edit.offset;
    match stage.at_absolute_mut(coords) {
        None => {
            return false;
        },
        Some(chunk) => {
            chunk.chunk.set(offset, edit.value);
            chunk.mesh = None;
        },
    }
    let ghost edited = stage@;
    proof {
        stage.lemma_wf();
        old(stage).lemma_wf();
        old(stage)@.lemma_slot_of(coords);
        edited.lemma_slot_of(coords);
    }
    if offset.x == 0 && coords.0.x > i32::MIN {
        dirty(stage, Coords(V3 { x: coords.0.x - 1, y: coords.0.y, z: coords.0.z }));
    }
    let ghost after_x = stage@;
    proof {
        stage.lemma_wf();
        lemma_dirtied_keeps(edited, coords, offset, 0);
    }
    if offset.y == 0 && coords.0.y > i32::MIN {
        dirty(stage, Coords(V3 { x: coords.0.x, y: coords.0.y - 1, z: coords.0.z }));
    }
    let ghost after_y = stage@;
    proof {
        stage.lemma_wf();
        lemma_dirtied_keeps(after_x, coords, offset, 1);
    }
    if offset.z == 0 && coords.0.z > i32::MIN {
        dirty(stage, Coords(V3 { x: coords.0.x, y: coords.0.y, z: coords.0.z - 1 }));
    }
    proof {
        stage.lemma_wf();
        lemma_dirtied_keeps(after_y, coords, offset, 2);
        let alone = old(stage)@.with_slot(
            coords,
            Element { coords, content: stage@.content(coords) },
        );
        assert(alone.slot(coords) == stage@.slot(coords));
    }
    true
}

/// To throw away the mesh of a chunk before the chunk at `coords` leaves
/// the slot of the chunk at `coords` as it is.
proof fn lemma_dirtied_keeps<M>(
    v: StageView<StageChunk<M>>,
    coords: Coords,
    offset: V3<u8>,
    axis: int,
)
    requires
        v.wf(),
        v.has(coords),
    ensures
        dirtied_across(v, coords, offset, axis).slot(coords) == v.slot(coords),
        dirtied_across(v, coords, offset, axis).slots.len() == v.slots.len(),
{
    match touched(coords, offset, axis) {
        Some(abs) => {
            if v.content(abs) is Some {
                v.lemma_slot_of(abs);
                v.lemma_slot_of(coords);
            }
        },
        None => {},
    }
}

/// Whether the chunk at `abs` is to be meshed: the stage holds it without
/// a mesh, it is not in the last layer of the window along any axis, and the
/// stage holds its three neighbours on its positive sides.
pub open spec fn needs_mesh<M>(v: StageView<StageChunk<M>>, abs: Coords) -> bool {
    let rel = crate::math::diff3(abs.0.ints(), v.center.0.ints());
    &&& v.has(abs)
    &&& rel.x < v.width / 2 && rel.y < v.width / 2 && rel.z < v.width / 2
    &&& v.content(abs) matches Some(c) && c.mesh is None
    &&& can_fill(v, rel)
}

/// Whether the slot `after` is the slot `before` with, at most, another
/// mesh.
pub open spec fn same_chunk<M>(before: Element<StageChunk<M>>, after: Element<StageChunk<M>>) -> bool {
    &&& after.coords == before.coords
    &&& after.content is Some <==> before.content is Some
    &&& before.content is Some ==> after.content->Some_0.chunk == before.content->Some_0.chunk
}

/// Whether a mesher looks at the cell at `ijk` of a meshing buffer: at all
/// cells but those along the edges where two neighbours would meet.
pub open spec fn looked_at(ijk: V3<usize>) -> bool {
    &&& ijk.x <= 16 && ijk.y <= 16 && ijk.z <= 16
    &&& !(ijk.x == 16 && ijk.y == 16)
    &&& !(ijk.x == 16 && ijk.z == 16)
    &&& !(ijk.y == 16 && ijk.z == 16)
}

/// Whether `input` holds, wherever a mesher looks, the blocks of a meshing
/// buffer filled for the chunk that lies `rel` from the centre of the stage.
pub open spec fn filled_for<M>(
    v: StageView<StageChunk<M>>,
    rel: V3<int>,
    input: crate::block::Slice<'_>,
) -> bool {
    &&& input.wf()
    &&& input.extent() == (V3 { x: 17usize, y: 17usize, z: 17usize })
    &&& forall|ijk: V3<usize>|
        looked_at(ijk) ==> #[trigger] input.at(ijk) == filled_block(
            Block::Empty,
            v.content_rel(rel)->Some_0.chunk,
            v.content_rel(step(rel, 0))->Some_0.chunk,
            v.content_rel(step(rel, 1))->Some_0.chunk,
            v.content_rel(step(rel, 2))->Some_0.chunk,
            ijk,
        )
}

/// Whether the slot `e` holds a chunk with the mesh that `finish` made of
/// `baked`, and `baked` holds the quads `found`, or before them the quads
/// `pending` that the builder held when the first mesh was baked.
pub open spec fn has_mesh_from<M, B: MeshBuilder, F: Fn(B::Mesh) -> M>(
    finish: &F,
    found: Seq<Quad>,
    pending: Seq<Quad>,
    baked: B::Mesh,
    e: Element<StageChunk<M>>,
) -> bool {
    &&& e.content is Some
    &&& e.content->Some_0.mesh is Some
    &&& baked.quads() == found || baked.quads() == pending + found
    &&& call_ensures(*finish, (baked,), e.content->Some_0.mesh->Some_0)
}

/// Gives a mesh to each chunk on the stage that needs one and can be meshed:
/// the meshing buffer is filled for the chunk, `mesher` makes a mesh of it
/// with `builder`, and `finish` makes of that mesh what the stage keeps.
/// Chunks and the meshes of other chunks are left alone.
pub fn refresh_meshes<M, Me: Mesher, B: MeshBuilder, F: Fn(B::Mesh) -> M>(
    stage: &mut Stage<M>,
    buffer: &mut MeshingBuffer,
    mesher: &Me,
    builder: &mut B,
    finish: &F,
)
    requires
        old(stage).wf(),
        old(buffer).wf(),
        forall|input: crate::block::Slice<'_>| meshable(input) ==> #[trigger] mesher.accepts(input),
        forall|mesh: B::Mesh| call_requires(*finish, (mesh,)),
    ensures
        final(stage).wf(),
        final(buffer).wf(),
        final(builder).pending() == old(builder).pending() || final(builder).pending()
            == Seq::<Quad>::empty(),
        final(stage)@.center == old(stage)@.center,
        final(stage)@.width == old(stage)@.width,
        final(stage)@.slots.len() == old(stage)@.slots.len(),
        forall|abs: Coords|
            old(stage)@.has(abs) ==> same_chunk(
                old(stage)@.slot(abs),
                #[trigger] final(stage)@.slot(abs),
            ),
        forall|abs: Coords|
            old(stage)@.has(abs) && !needs_mesh(old(stage)@, abs) ==> #[trigger] final(stage)@.slot(
                abs,
            ) == old(stage)@.slot(abs),
        forall|abs: Coords|
            needs_mesh(old(stage)@, abs) ==> exists|input: crate::block::Slice<'_>, baked: B::Mesh|
                filled_for(
                    old(stage)@,
                    crate::math::diff3(abs.0.ints(), old(stage)@.center.0.ints()),
                    input,
                )
                    && #[trigger] has_mesh_from::<M, B, F>(
                    finish,
                    mesher.quads_of(input),
                    old(builder).pending(),
                    baked,
                    final(stage)@.slot(abs),
                ),
{
    let ghost v = stage@;
    let ghost pending = builder.pending();
    proof {
        stage.lemma_wf();
    }
    let mins = stage.relative_mins();
    let maxs = stage.relative_maxs();
    let ends = V3 { x: maxs.x - 1, y: maxs.y - 1, z: maxs.z - 1 };
    let mut it = SpaceIter::new(mins, ends);
    let ghost inner = widths(it.orig(), it.ends());
    loop
        invariant
            stage.wf(),
            buffer.wf(),
            v == old(stage)@,
            pending == old(builder).pending(),
            builder.pending() == pending || builder.pending() == Seq::<Quad>::empty(),
            v.wf(),
            v.width < 0x40_0000,
            stage@.center == v.center,
            stage@.width == v.width,
            stage@.slots.len() == v.slots.len(),
            forall|input: crate::block::Slice<'_>|
                meshable(input) ==> #[trigger] mesher.accepts(input),
            forall|mesh: B::Mesh| call_requires(*finish, (mesh,)),
            it.orig() == (V3 { x: 1 - v.width / 2, y: 1 - v.width / 2, z: 1 - v.width / 2 }),
            it.ends() == (V3 { x: v.width / 2, y: v.width / 2, z: v.width / 2 }),
            inner == widths(it.orig(), it.ends()),
            0 <= it.position() <= box_points(it.orig(), it.ends()).len(),
            forall|abs: Coords|
                v.has(abs) ==> same_chunk(v.slot(abs), #[trigger] stage@.slot(abs)),
            forall|abs: Coords|
                v.has(abs) && !(needs_mesh(v, abs) && rank(
                    inner,
                    crate::math::diff3(abs.0.ints(), v.origin()),
                ) < it.position()) ==> #[trigger] stage@.slot(abs) == v.slot(abs),
            forall|abs: Coords|
                needs_mesh(v, abs) && rank(inner, crate::math::diff3(abs.0.ints(), v.origin()))
                    < it.position() ==> exists|input: crate::block::Slice<'_>, baked: B::Mesh|
                    filled_for(v, crate::math::diff3(abs.0.ints(), v.center.0.ints()), input)
                        && #[trigger] has_mesh_from::<M, B, F>(
                        finish,
                        mesher.quads_of(input),
                        pending,
                        baked,
                        stage@.slot(abs),
                    ),
        ensures
            stage.wf(),
            buffer.wf(),
            builder.pending() == pending || builder.pending() == Seq::<Quad>::empty(),
            stage@.center == v.center,
            stage@.width == v.width,
            stage@.slots.len() == v.slots.len(),
            forall|abs: Coords|
                v.has(abs) ==> same_chunk(v.slot(abs), #[trigger] stage@.slot(abs)),
            forall|abs: Coords|
                v.has(abs) && !needs_mesh(v, abs) ==> #[trigger] stage@.slot(abs) == v.slot(abs),
            forall|abs: Coords|
                needs_mesh(v, abs) ==> exists|input: crate::block::Slice<'_>, baked: B::Mesh|
                    filled_for(v, crate::math::diff3(abs.0.ints(), v.center.0.ints()), input)
                        && #[trigger] has_mesh_from::<M, B, F>(
                        finish,
                        mesher.quads_of(input),
                        pending,
                        baked,
                        stage@.slot(abs),
                    ),
        decreases box_points(it.orig(), it.ends()).len() - it.position(),
    {
        let ghost n = it.position();
        let ghost before = stage@;
        match it.next() {
            Some(rel) => {
                let ghost abs = v.at_rel(rel.ints());
                proof {
                    stage.lemma_wf();
                    crate::math::iter::lemma_rank_of_unrank(inner, n);
                    lemma_same_presence(v, before, rel.ints());
                }
                let wanted = match stage.at_relative(rel) {
                    Some(chunk) => chunk.mesh.is_none(),
                    None => false,
                };
                proof {
                    assert(before.slot(abs) == v.slot(abs));
                }
                let ghost mut done = false;
                if wanted {
                    if fill_meshing_buffer(buffer, stage, rel).is_some() {
                        proof {
                            meshing_buffer::lemma_layout(*buffer);
                        }
                        let input = buffer.whole_slice();
                        let ghost shown = input;
                        proof {
                            assert forall|ijk: V3<usize>| looked_at(ijk) implies #[trigger] shown.at(
                                ijk,
                            ) == filled_block(
                                Block::Empty,
                                v.content_rel(rel.ints())->Some_0.chunk,
                                v.content_rel(step(rel.ints(), 0))->Some_0.chunk,
                                v.content_rel(step(rel.ints(), 1))->Some_0.chunk,
                                v.content_rel(step(rel.ints(), 2))->Some_0.chunk,
                                ijk,
                            ) by {
                                assert(buffer.has(ijk));
                                assert(shown.at(ijk) == buffer.at(ijk));
                            }
                            assert(filled_for(v, rel.ints(), shown));
                        }
                        let baked = mesher.make_mesh(input, builder);
                        let ghost shaped = baked;
                        let mesh = finish(baked);
                        match stage.at_relative_mut(rel) {
                            Some(chunk) => {
                                chunk.mesh = Some(mesh);
                                proof {
                                    done = true;
                                }
                            },
                            None => {
                                assert(false);
                            },
                        }
                        proof {
                            before.lemma_slot_of(abs);
                            let e = stage@.slot(abs);
                            assert(e.content->Some_0.mesh->Some_0 == mesh);
                            assert(crate::math::diff3(abs.0.ints(), v.center.0.ints())
                                == rel.ints());
                            assert(has_mesh_from::<M, B, F>(
                                finish,
                                mesher.quads_of(shown),
                                pending,
                                shaped,
                                e,
                            ));
                        }
                    }
                }
                proof {
                    stage.lemma_wf();
                    assert forall|other: Coords| v.has(other) implies same_chunk(
                        v.slot(other),
                        #[trigger] stage@.slot(other),
                    ) && (!(needs_mesh(v, other) && rank(
                        inner,
                        crate::math::diff3(other.0.ints(), v.origin()),
                    ) < n + 1) ==> stage@.slot(other) == v.slot(other)) && (needs_mesh(v, other)
                        && rank(inner, crate::math::diff3(other.0.ints(), v.origin())) < n + 1
                        ==> exists|input: crate::block::Slice<'_>, baked: B::Mesh|
                        filled_for(
                            v,
                            crate::math::diff3(other.0.ints(), v.center.0.ints()),
                            input,
                        ) && #[trigger] has_mesh_from::<M, B, F>(
                            finish,
                            mesher.quads_of(input),
                            pending,
                            baked,
                            stage@.slot(other),
                        )) by {
                        before.lemma_slot_of(other);
                        before.lemma_slot_of(abs);
                        if other != abs {
                            if needs_mesh(v, other) {
                                let d = crate::math::diff3(other.0.ints(), v.origin());
                                crate::math::iter::lemma_unrank_of_rank(inner, d);
                            }
                        }
                    }
                }
            },
            None => {
                proof {
                    assert forall|abs: Coords| needs_mesh(v, abs) implies rank(
                        inner,
                        crate::math::diff3(abs.0.ints(), v.origin()),
                    ) < it.position() by {
                        crate::math::iter::lemma_rank_bounds(
                            inner,
                            crate::math::diff3(abs.0.ints(), v.origin()),
                        );
                    }
                }
                break ;
            },
        }
    }
}

/// Which chunks the stage holds does not change when meshes do: if each
/// slot of the window is the same but for its mesh, the stage holds a chunk
/// at a relative coordinate after if and only if it held one before, and
/// then the same chunk.
proof fn lemma_same_presence<M>(
    v: StageView<StageChunk<M>>,
    now: StageView<StageChunk<M>>,
    rel: V3<int>,
)
    requires
        v.wf(),
        now.center == v.center,
        now.width == v.width,
        now.slots.len() == v.slots.len(),
        forall|abs: Coords| v.has(abs) ==> same_chunk(v.slot(abs), #[trigger] now.slot(abs)),
    ensures
        can_fill(now, rel) == can_fill(v, rel),
        now.content_rel(rel) is Some == v.content_rel(rel) is Some,
        can_fill(v, rel) ==> {
            &&& now.content_rel(rel)->Some_0.chunk == v.content_rel(rel)->Some_0.chunk
            &&& now.content_rel(step(rel, 0))->Some_0.chunk == v.content_rel(
                step(rel, 0),
            )->Some_0.chunk
            &&& now.content_rel(step(rel, 1))->Some_0.chunk == v.content_rel(
                step(rel, 1),
            )->Some_0.chunk
            &&& now.content_rel(step(rel, 2))->Some_0.chunk == v.content_rel(
                step(rel, 2),
            )->Some_0.chunk
        },
{
    lemma_same_presence_at(v, now, rel);
    lemma_same_presence_at(v, now, step(rel, 0));
    lemma_same_presence_at(v, now, step(rel, 1));
    lemma_same_presence_at(v, now, step(rel, 2));
}

proof fn lemma_same_presence_at<M>(
    v: StageView<StageChunk<M>>,
    now: StageView<StageChunk<M>>,
    rel: V3<int>,
)
    requires
        v.wf(),
        now.center == v.center,
        now.width == v.width,
        now.slots.len() == v.slots.len(),
        forall|abs: Coords| v.has(abs) ==> same_chunk(v.slot(abs), #[trigger] now.slot(abs)),
    ensures
        now.content_rel(rel) is Some == v.content_rel(rel) is Some,
        v.content_rel(rel) is Some ==> now.content_rel(rel)->Some_0.chunk == v.content_rel(
            rel,
        )->Some_0.chunk,
{
}

/// How many chunks at most are made in one update of the stage. Chunks
/// that the cache or the store holds are loaded beyond that number.
pub const MAX_LOAD: usize = 10;

/// Why an update of the stage stopped.
#[derive(Clone, Copy, PartialEq, Eq, Structural, Debug)]
pub enum UpdateError {
    /// The chunk that left the window at these coordinates was not checked
    /// out of the cache, so it cannot be brought back.
    NotLent(Coords),
    /// The chunk that the window lacks at these coordinates is checked out
    /// of the cache already.
    Lent(Coords),
    /// The chunk that the window lacks at these coordinates could not be
    /// loaded.
    Load(Coords, LoadError),
}

/// Whether the slot holds, for `abs`, a chunk that was just loaded.
pub open spec fn fresh_chunk<M>(e: Element<StageChunk<M>>, abs: Coords) -> bool {
    &&& e.coords == abs
    &&& e.content is Some
    &&& e.content->Some_0.mesh is None
}

/// Whether the slot holds content for `abs`.
pub open spec fn in_place<M>(e: Element<StageChunk<M>>, abs: Coords) -> bool {
    e.coords == abs && e.content is Some
}

/// Moves `queue` to a new vector in reverse order.
fn reversed<T>(queue: Vec<T>) -> (r: Vec<T>)
    ensures
        r@.len() == queue@.len(),
        forall|i: int| 0 <= i < r@.len() ==> #[trigger] r@[i] == queue@[queue@.len() - 1 - i],
{
    let mut queue = queue;
    let ghost all = queue@;
    let mut out: Vec<T> = Vec::new();
    while queue.len() > 0
        invariant
            queue@ == all.take(queue@.len() as int),
            queue@.len() <= all.len(),
            out@.len() == all.len() - queue@.len(),
            forall|i: int| 0 <= i < out@.len() ==> #[trigger] out@[i] == all[all.len() - 1 - i],
        decreases queue@.len(),
    {
        match queue.pop() {
            Some(item) => {
                out.push(item);
            },
            None => {
                assert(false);
            },
        }
    }
    out
}

/// Puts a chunk that was loaded for `coords` on the stage, without a mesh,
/// and counts it if it had to be made: gives `made`, or one more where the
/// chunk came from the maker. Nothing is put where `coords` lies outside the
/// window.
pub fn place_loaded<M>(
    stage: &mut Stage<M>,
    coords: Coords,
    chunk: Chunk,
    from: LoadedFrom,
    made: usize,
) -> (r: usize)
    requires
        old(stage).wf(),
        made < usize::MAX,
    ensures
        final(stage).wf(),
        final(stage)@.center == old(stage)@.center,
        final(stage)@.width == old(stage)@.width,
        old(stage)@.has(coords) ==> final(stage)@.slots =~= old(stage)@.with_slot(
            coords,
            Element { coords, content: Some(StageChunk { chunk, mesh: None }) },
        ).slots,
        !old(stage)@.has(coords) ==> final(stage)@.slots =~= old(stage)@.slots,
        r == made + if from == LoadedFrom::Maker {
            1int
        } else {
            0int
        },
{
    stage.insert_absolute(coords, StageChunk::new(chunk));
    if from == LoadedFrom::Maker {
        made + 1
    } else {
        made
    }
}

/// The report of a sweep, as `update_chunks` takes it.
pub type Report<M> = Seq<StaleChunk<StageChunk<M>>>;

/// Whether the evictions among the first `s` entries of the report were
/// brought back: each of them was checked out of the cache `c0`, and the
/// cache `cf` holds its chunk.
pub open spec fn stored<M>(
    report: Report<M>,
    s: int,
    c0: Map<Coords, Entry<Chunk>>,
    cf: Map<Coords, Entry<Chunk>>,
) -> bool {
    forall|j: int|
        0 <= j < s && (#[trigger] report[j]) is Evicted ==> {
            &&& may_release(c0, report[j]->old_coords)
            &&& cf.contains_key(report[j]->old_coords)
            &&& cf[report[j]->old_coords] == Entry::Cached(report[j]->value.chunk)
        }
}

/// Whether the chunks that the first `l` entries of the report lack were
/// loaded: none of them was checked out of the cache `c0`; what `c0` held
/// of them is checked out of the cache `cf`; and the stage holds each in
/// its slot, without a mesh.
pub open spec fn loaded<M>(
    report: Report<M>,
    l: int,
    c0: Map<Coords, Entry<Chunk>>,
    cf: Map<Coords, Entry<Chunk>>,
    now: StageView<StageChunk<M>>,
) -> bool {
    forall|j: int|
        0 <= j < l ==> {
            let c = (#[trigger] report[j]).spec_coords();
            &&& may_acquire(c0, c)
            &&& c0.contains_key(c) ==> cf.contains_key(c) && cf[c] == Entry::<Chunk>::Borrowed
            &&& fresh_chunk(now.slot(c), c)
        }
}

/// Whether the stage is as the sweep left it but for the slots of the
/// first `l` entries of the report: the slots of the other entries are
/// swept, and the slots that held their content in place hold it still.
pub open spec fn waiting<M>(
    report: Report<M>,
    l: int,
    v: StageView<StageChunk<M>>,
    now: StageView<StageChunk<M>>,
) -> bool {
    &&& forall|j: int|
        l <= j < report.len() ==> now.slot((#[trigger] report[j]).spec_coords())
            == StageView::swept(v.slot(report[j].spec_coords()), report[j].spec_coords())
    &&& forall|abs: Coords|
        v.has(abs) && in_place(v.slot(abs), abs) ==> #[trigger] now.slot(abs) == v.slot(abs)
}

/// Whether nothing was done about the coordinate `c`: it is not evicted by
/// one of the first `s` entries of the report, nor lacked by one of the
/// first `l`.
pub open spec fn untouched<M>(report: Report<M>, s: int, l: int, c: Coords) -> bool {
    &&& forall|j: int|
        0 <= j < s && (#[trigger] report[j]) is Evicted ==> report[j]->old_coords != c
    &&& forall|j: int| 0 <= j < l ==> (#[trigger] report[j]).spec_coords() != c
}

/// Whether the cache `cf` holds what the cache `c0` held at each coordinate
/// about which nothing was done, and has no such coordinate checked out
/// that `c0` had not.
pub open spec fn kept<M>(
    report: Report<M>,
    s: int,
    l: int,
    c0: Map<Coords, Entry<Chunk>>,
    cf: Map<Coords, Entry<Chunk>>,
) -> bool {
    &&& forall|c: Coords|
        c0.contains_key(c) && untouched(report, s, l, c) ==> #[trigger] cf.contains_key(c)
            && cf[c] == c0[c]
    &&& forall|c: Coords|
        #[trigger] may_release(cf, c) && untouched(report, s, l, c) ==> may_release(c0, c)
}

/// Whether the cache `c0` holds the chunk that each of the first `l`
/// entries of the report lacks.
pub open spec fn all_cached<M>(report: Report<M>, l: int, c0: Map<Coords, Entry<Chunk>>) -> bool {
    forall|j: int| 0 <= j < l ==> acquired(c0, (#[trigger] report[j]).spec_coords()) is Some
}

/// Whether the cache `c0` has every chunk checked out that the report
/// evicts.
pub open spec fn all_lent<M>(report: Report<M>, c0: Map<Coords, Entry<Chunk>>) -> bool {
    forall|j: int|
        0 <= j < report.len() && (#[trigger] report[j]) is Evicted ==> may_release(
            c0,
            report[j]->old_coords,
        )
}

/// How many of the chunks that the first `l` entries of the report lack the
/// cache `c0` does not hold.
pub open spec fn misses<M>(report: Report<M>, l: int, c0: Map<Coords, Entry<Chunk>>) -> int
    decreases l,
{
    if l <= 0 {
        0
    } else {
        misses(report, l - 1, c0) + if acquired(c0, report[l - 1].spec_coords()) is Some {
            0int
        } else {
            1int
        }
    }
}

/// Where the cache holds all the chunks that are lacked, it misses none; and
/// it never misses more than are lacked.
pub proof fn lemma_misses<M>(report: Report<M>, l: int, c0: Map<Coords, Entry<Chunk>>)
    requires
        0 <= l,
    ensures
        0 <= misses(report, l, c0) <= l,
        all_cached(report, l, c0) ==> misses(report, l, c0) == 0,
    decreases l,
{
    if l > 0 {
        lemma_misses(report, l - 1, c0);
        if all_cached(report, l, c0) {
            assert(all_cached(report, l - 1, c0));
            assert(acquired(c0, report[l - 1].spec_coords()) is Some);
        }
    }
}

/// What an update has done when it ends with `r`. The stage `v`, moved but
/// not yet swept, and the cache `c0` are what it began with; the stage `now`
/// and the cache `cf` are what it leaves. The entries of the report were
/// taken in order. The evictions of the first `s` were brought back to the
/// cache, and the chunks that the first `l` lack were loaded and put on the
/// stage; nothing else was done. Of the chunks loaded, `made` came from the
/// maker: no more than `MAX_LOAD`, and no more than `c0` did not hold; and
/// if none was made the cache has no new coordinate.
///
/// - It ends well when every entry was taken, and gives `made`. Not all
///   chunks that were lacked are loaded then only if `MAX_LOAD` were made.
/// - It ends with `NotLent` at the first eviction whose chunk `c0` had not
///   checked out. A chunk lacked before it was not loaded only if
///   `MAX_LOAD` were made.
/// - It ends with `Lent` at the first entry, taken while chunks were loaded,
///   that lacks a chunk which `c0` had checked out.
/// - It ends with `Load` at an entry, taken while chunks were loaded, whose
///   chunk `c0` did not hold and which the source failed to load.
pub open spec fn updated<M>(
    v: StageView<StageChunk<M>>,
    c0: Map<Coords, Entry<Chunk>>,
    r: Result<usize, UpdateError>,
    s: int,
    l: int,
    made: int,
    now: StageView<StageChunk<M>>,
    cf: Map<Coords, Entry<Chunk>>,
) -> bool {
    let report = v.stale();
    &&& 0 <= l <= s <= report.len()
    &&& stored(report, s, c0, cf)
    &&& loaded(report, l, c0, cf, now)
    &&& waiting(report, l, v, now)
    &&& kept(report, s, l, c0, cf)
    &&& 0 <= made <= MAX_LOAD
    &&& made <= misses(report, l, c0)
    &&& made == 0 ==> cf.dom() =~= c0.dom()
    &&& match r {
        Ok(m) => {
            &&& s == report.len()
            &&& m == made
            &&& l < s ==> made == MAX_LOAD
        },
        Err(UpdateError::NotLent(c)) => {
            &&& s < report.len()
            &&& report[s] is Evicted
            &&& c == report[s]->old_coords
            &&& !may_release(c0, c)
            &&& l < s ==> made == MAX_LOAD
        },
        Err(UpdateError::Lent(c)) => {
            &&& l < report.len()
            &&& s == l + 1
            &&& c == report[l].spec_coords()
            &&& may_release(c0, c)
        },
        Err(UpdateError::Load(c, e)) => {
            &&& l < report.len()
            &&& s == l + 1
            &&& c == report[l].spec_coords()
            &&& may_acquire(c0, c)
            &&& acquired(c0, c) is None
        },
    }
}

/// Whether the evictions among the first `s` entries of the report are of
/// chunks that the cache `c0` has checked out.
pub open spec fn lent_upto<M>(report: Report<M>, s: int, c0: Map<Coords, Entry<Chunk>>) -> bool {
    forall|j: int|
        0 <= j < s && (#[trigger] report[j]) is Evicted ==> may_release(c0, report[j]->old_coords)
}

/// How an update ends where the store and the maker have no say, because
/// the cache `c0` holds every chunk that is asked of the source before the
/// end.
///
/// - It ends well, with no chunk made, if `c0` has checked out every chunk
///   that is evicted and holds every chunk that is lacked. So it does where
///   there is nothing to report.
/// - It does not end well if `c0` has not checked out every chunk that is
///   evicted.
/// - It ends with `NotLent` at an eviction whose chunk `c0` has not checked
///   out, if `c0` has checked out those evicted before and holds the chunks
///   lacked before.
/// - It ends with `Lent` at an entry that lacks a chunk which `c0` has
///   checked out, if `c0` has checked out those evicted up to there and
///   holds the chunks lacked before.
pub open spec fn decided<M>(
    report: Report<M>,
    c0: Map<Coords, Entry<Chunk>>,
    r: Result<usize, UpdateError>,
) -> bool {
    &&& all_lent(report, c0) && all_cached(report, report.len() as int, c0) ==> r == Ok::<
        usize,
        UpdateError,
    >(0)
    &&& !all_lent(report, c0) ==> r is Err
    &&& forall|k: int|
        0 <= k < report.len() && (#[trigger] report[k]) is Evicted && !may_release(
            c0,
            report[k]->old_coords,
        ) && lent_upto(report, k, c0) && all_cached(report, k, c0) ==> r == Err::<
            usize,
            UpdateError,
        >(UpdateError::NotLent(report[k]->old_coords))
    &&& forall|k: int|
        0 <= k < report.len() && may_release(c0, (#[trigger] report[k]).spec_coords())
            && lent_upto(report, k + 1, c0) && all_cached(report, k, c0) ==> r == Err::<
            usize,
            UpdateError,
        >(UpdateError::Lent(report[k].spec_coords()))
}

/// Moves the stage to `center` and fills what the window lacks there. The
/// entries of the sweep's report are taken in order. The chunk that an entry
/// evicts is brought back to the cache of `source`. The chunk that an entry
/// lacks is loaded from `source` and put on the stage without a mesh, until
/// `MAX_LOAD` chunks had to be made: from then on the window is left
/// lacking, for a later update to fill. Gives the number of chunks made.
/// Stops where a chunk cannot be brought back or loaded, with the work on
/// the entries before done.
pub fn update_chunks<M, S: ChunkStore, K: ChunkMaker>(
    stage: &mut Stage<M>,
    source: &mut Source<S, K>,
    center: Coords,
) -> (r: Result<usize, UpdateError>)
    requires
        old(stage).wf(),
        old(source).wf(),
        old(stage)@.recentred(center).wf(),
    ensures
        final(stage).wf(),
        final(source).wf(),
        final(stage)@.center == center,
        final(stage)@.width == old(stage)@.width,
        final(stage)@.slots.len() == old(stage)@.slots.len(),
        exists|s: int, l: int, made: int|
            updated(
                old(stage)@.recentred(center),
                old(source).cached(),
                r,
                s,
                l,
                made,
                final(stage)@,
                final(source).cached(),
            ),
        decided(old(stage)@.recentred(center).stale(), old(source).cached(), r),
        old(stage)@.recentred(center).stale().len() == 0 ==> final(source).cached() =~= old(
            source,
        ).cached(),
        r matches Ok(made) && made < MAX_LOAD ==> final(stage)@.settled(),
{
    let ghost v = stage@.recentred(center);
    let ghost c0 = source.cached();
    let stale = stage.relocate(center);
    let ghost report = stale@;
    proof {
        stage.lemma_wf();
        lemma_begun(v, c0, stage@);
    }
    let mut queue = reversed(stale);
    let mut load_count: usize = 0;
    let ghost mut l: int = 0;
    while queue.len() > 0
        invariant
            stage.wf(),
            source.wf(),
            v.wf(),
            v == old(stage)@.recentred(center),
            c0 == old(source).cached(),
            report == v.stale(),
            stage@.center == center,
            stage@.width == v.width,
            stage@.slots.len() == v.slots.len(),
            queue@.len() <= report.len(),
            forall|i: int|
                0 <= i < queue@.len() ==> #[trigger] queue@[i] == report[report.len() - 1 - i],
            load_count <= MAX_LOAD,
            load_count <= l <= report.len() - queue@.len(),
            load_count < MAX_LOAD ==> l == report.len() - queue@.len(),
            stored(report, report.len() - queue@.len(), c0, source.cached()),
            loaded(report, l, c0, source.cached(), stage@),
            waiting(report, l, v, stage@),
            kept(report, report.len() - queue@.len(), l, c0, source.cached()),
            load_count <= misses(report, l, c0),
            load_count == 0 ==> source.cached().dom() =~= c0.dom(),
        decreases queue@.len(),
    {
        let ghost k = report.len() - queue@.len();
        let ghost before = stage@;
        let ghost cache = source.cached();
        let entry = match queue.pop() {
            Some(entry) => entry,
            None => vstd::pervasive::unreached(),
        };
        proof {
            assert(entry == report[k]);
            lemma_entry(v, k);
            stage.lemma_wf();
        }
        let coords = match entry {
            StaleChunk::Missing(coords) => coords,
            StaleChunk::Evicted { old_coords, new_coords, value } => {
                if !source.lent(old_coords) {
                    proof {
                        lemma_not_lent(v, c0, k, l, load_count as int, stage@, cache);
                        lemma_ends(
                            v,
                            c0,
                            Err(UpdateError::NotLent(old_coords)),
                            k,
                            l,
                            load_count as int,
                            stage@,
                            cache,
                        );
                    }
                    return Err(UpdateError::NotLent(old_coords));
                }
                source.store(old_coords, value.chunk);
                new_coords
            },
        };
        let ghost mid = source.cached();
        proof {
            lemma_brought_back(v, c0, k, l, stage@, cache, mid);
        }
        if load_count < MAX_LOAD {
            let lent = source.lent(coords);
            proof {
                lemma_to_load(v, c0, k, load_count as int, stage@, mid);
            }
            if lent {
                proof {
                    lemma_ends(
                        v,
                        c0,
                        Err(UpdateError::Lent(coords)),
                        k + 1,
                        l,
                        load_count as int,
                        stage@,
                        mid,
                    );
                }
                return Err(UpdateError::Lent(coords));
            }
            match source.load(coords) {
                Err(e) => {
                    proof {
                        assert(acquired(mid, coords) is None);
                        assert(source.cached() == mid);
                        let failed = Err::<usize, UpdateError>(UpdateError::Load(coords, e));
                        assert(updated(v, c0, failed, k + 1, l, load_count as int, stage@, mid));
                        lemma_ends(v, c0, failed, k + 1, l, load_count as int, stage@, mid);
                    }
                    return Err(UpdateError::Load(coords, e));
                },
                Ok((chunk, from)) => {
                    load_count = place_loaded(stage, coords, chunk, from, load_count);
                    proof {
                        stage.lemma_wf();
                        before.lemma_slot_of(coords);
                        lemma_put(v, c0, k, before, mid, stage@, source.cached());
                        if from != LoadedFrom::Maker {
                            assert(source.cached().dom() =~= mid.dom());
                        }
                        if acquired(c0, coords) is Some {
                            assert(acquired(mid, coords) is Some);
                            assert(from == LoadedFrom::Cache);
                        }
                        assert(misses(report, k + 1, c0) == misses(report, k, c0) + if acquired(
                            c0,
                            report[k].spec_coords(),
                        ) is Some {
                            0int
                        } else {
                            1int
                        });
                        l = k + 1;
                    }
                },
            }
        }
    }
    proof {
        stage.lemma_wf();
        let done = Ok::<usize, UpdateError>(load_count);
        assert(updated(v, c0, done, report.len() as int, l, load_count as int, stage@, source.cached()));
        lemma_ends(v, c0, done, report.len() as int, l, load_count as int, stage@, source.cached());
        if load_count < MAX_LOAD {
            lemma_settled(v, c0, stage@, source.cached());
        }
    }
    Ok(load_count)
}

/// As a sweep leaves the stage, nothing was done yet.
proof fn lemma_begun<M>(
    v: StageView<StageChunk<M>>,
    c0: Map<Coords, Entry<Chunk>>,
    swept: StageView<StageChunk<M>>,
)
    requires
        v.wf(),
        v.swept_to(swept),
    ensures
        stored(v.stale(), 0, c0, c0),
        loaded(v.stale(), 0, c0, c0, swept),
        waiting(v.stale(), 0, v, swept),
        kept(v.stale(), 0, 0, c0, c0),
        misses(v.stale(), 0, c0) == 0,
{
    lemma_report(v);
}

/// What the entry at `k` of the report is about.
proof fn lemma_entry<M>(v: StageView<StageChunk<M>>, k: int)
    requires
        v.wf(),
        0 <= k < v.stale().len(),
    ensures
        v.has(v.stale()[k].spec_coords()),
        v.stale()[k] is Evicted ==> v.stale()[k].spec_coords() == v.stale()[k]->new_coords,
{
    lemma_report(v);
}

/// An eviction whose chunk is not checked out when it is taken was not
/// checked out at the beginning.
proof fn lemma_not_lent<M>(
    v: StageView<StageChunk<M>>,
    c0: Map<Coords, Entry<Chunk>>,
    k: int,
    l: int,
    made: int,
    now: StageView<StageChunk<M>>,
    cache: Map<Coords, Entry<Chunk>>,
)
    requires
        v.wf(),
        0 <= l <= k < v.stale().len(),
        v.stale()[k] is Evicted,
        stored(v.stale(), k, c0, cache),
        loaded(v.stale(), l, c0, cache, now),
        waiting(v.stale(), l, v, now),
        kept(v.stale(), k, l, c0, cache),
        0 <= made <= MAX_LOAD,
        made <= misses(v.stale(), l, c0),
        made == 0 ==> cache.dom() =~= c0.dom(),
        l < k ==> made == MAX_LOAD,
        !may_release(cache, v.stale()[k]->old_coords),
    ensures
        updated(
            v,
            c0,
            Err(UpdateError::NotLent(v.stale()[k]->old_coords)),
            k,
            l,
            made,
            now,
            cache,
        ),
{
    let report = v.stale();
    let old = report[k]->old_coords;
    lemma_untouched(v, k, l);
    lemma_untouched_less(report, k, k, k, l, old);
    assert(untouched(report, k, l, old));
    if c0.contains_key(old) {
        assert(cache.contains_key(old) && cache[old] == c0[old]);
    }
}

/// What the cache holds once the eviction of the entry at `k`, if it is one,
/// was brought back.
proof fn lemma_brought_back<M>(
    v: StageView<StageChunk<M>>,
    c0: Map<Coords, Entry<Chunk>>,
    k: int,
    l: int,
    now: StageView<StageChunk<M>>,
    cache: Map<Coords, Entry<Chunk>>,
    mid: Map<Coords, Entry<Chunk>>,
)
    requires
        v.wf(),
        0 <= l <= k < v.stale().len(),
        stored(v.stale(), k, c0, cache),
        loaded(v.stale(), l, c0, cache, now),
        kept(v.stale(), k, l, c0, cache),
        v.stale()[k] is Evicted ==> may_release(cache, v.stale()[k]->old_coords) && mid
            == cache.insert(v.stale()[k]->old_coords, Entry::Cached(v.stale()[k]->value.chunk)),
        !(v.stale()[k] is Evicted) ==> mid == cache,
    ensures
        stored(v.stale(), k + 1, c0, mid),
        loaded(v.stale(), l, c0, mid, now),
        kept(v.stale(), k + 1, l, c0, mid),
        mid.dom() =~= cache.dom(),
{
    let report = v.stale();
    let k1 = k + 1;
    lemma_report(v);
    lemma_untouched(v, k, l);
    if report[k] is Evicted {
        let old = report[k]->old_coords;
        lemma_untouched_less(report, k, k, k, l, old);
        assert(may_release(c0, old));
        assert forall|j: int| 0 <= j < k && (#[trigger] report[j]) is Evicted implies report[j]->old_coords
            != old by {}
        assert forall|j: int| 0 <= j < l implies (#[trigger] report[j]).spec_coords() != old by {
            assert(v.has(report[j].spec_coords()));
        }
    }
    assert forall|c: Coords| #[trigger] untouched(report, k1, l, c) implies untouched(
        report,
        k,
        l,
        c,
    ) && (report[k] is Evicted ==> c != report[k]->old_coords) by {
        lemma_untouched_less(report, k1, l, k, l, c);
    }
    assert forall|c: Coords| c0.contains_key(c) && untouched(report, k1, l, c) implies #[trigger]
        mid.contains_key(c) && mid[c] == c0[c] by {
        assert(untouched(report, k, l, c));
        assert(cache.contains_key(c));
    }
    assert forall|c: Coords| #[trigger]
        may_release(mid, c) && untouched(report, k1, l, c) implies may_release(c0, c) by {
        assert(untouched(report, k, l, c));
        assert(may_release(cache, c));
    }
}

/// Whether the chunk that the entry at `k` lacks is checked out when it is
/// to be loaded says whether it was at the beginning; and what the cache
/// held of it then it holds now.
proof fn lemma_to_load<M>(
    v: StageView<StageChunk<M>>,
    c0: Map<Coords, Entry<Chunk>>,
    k: int,
    made: int,
    now: StageView<StageChunk<M>>,
    mid: Map<Coords, Entry<Chunk>>,
)
    requires
        v.wf(),
        0 <= k < v.stale().len(),
        stored(v.stale(), k + 1, c0, mid),
        loaded(v.stale(), k, c0, mid, now),
        waiting(v.stale(), k, v, now),
        kept(v.stale(), k + 1, k, c0, mid),
        0 <= made <= MAX_LOAD,
        made <= misses(v.stale(), k, c0),
        made == 0 ==> mid.dom() =~= c0.dom(),
    ensures
        may_release(mid, v.stale()[k].spec_coords()) == may_release(
            c0,
            v.stale()[k].spec_coords(),
        ),
        c0.contains_key(v.stale()[k].spec_coords()) ==> mid.contains_key(
            v.stale()[k].spec_coords(),
        ) && mid[v.stale()[k].spec_coords()] == c0[v.stale()[k].spec_coords()],
        acquired(mid, v.stale()[k].spec_coords()) is None ==> acquired(
            c0,
            v.stale()[k].spec_coords(),
        ) is None,
        may_release(c0, v.stale()[k].spec_coords()) ==> updated(
            v,
            c0,
            Err(UpdateError::Lent(v.stale()[k].spec_coords())),
            k + 1,
            k,
            made,
            now,
            mid,
        ),
        forall|e: LoadError|
            !may_release(c0, v.stale()[k].spec_coords()) && acquired(
                mid,
                v.stale()[k].spec_coords(),
            ) is None ==> #[trigger] updated(
                v,
                c0,
                Err(UpdateError::Load(v.stale()[k].spec_coords(), e)),
                k + 1,
                k,
                made,
                now,
                mid,
            ),
{
    let report = v.stale();
    let c = report[k].spec_coords();
    let k1 = k + 1;
    lemma_untouched(v, k, k);
    assert(untouched(report, k1, k, c));
    assert(kept(report, k1, k, c0, mid));
    if c0.contains_key(c) {
        assert(mid.contains_key(c) && mid[c] == c0[c]);
    }
    if may_release(mid, c) {
        assert(may_release(c0, c));
    }
}

/// What the stage and the cache hold once the chunk that the entry at `k`
/// lacks was loaded and put on the stage.
proof fn lemma_put<M>(
    v: StageView<StageChunk<M>>,
    c0: Map<Coords, Entry<Chunk>>,
    k: int,
    before: StageView<StageChunk<M>>,
    mid: Map<Coords, Entry<Chunk>>,
    now: StageView<StageChunk<M>>,
    fresh: Map<Coords, Entry<Chunk>>,
)
    requires
        v.wf(),
        0 <= k < v.stale().len(),
        before.shaped(),
        before.center == v.center,
        before.width == v.width,
        stored(v.stale(), k + 1, c0, mid),
        loaded(v.stale(), k, c0, mid, before),
        waiting(v.stale(), k, v, before),
        kept(v.stale(), k + 1, k, c0, mid),
        !may_release(mid, v.stale()[k].spec_coords()),
        now.center == before.center,
        now.width == before.width,
        now.slots.len() == before.slots.len(),
        fresh_chunk(now.slot(v.stale()[k].spec_coords()), v.stale()[k].spec_coords()),
        forall|f: int|
            0 <= f < before.slots.len() && f != before.index_of(v.stale()[k].spec_coords())
                ==> #[trigger] now.slots[f] == before.slots[f],
        acquired(mid, v.stale()[k].spec_coords()) is Some ==> fresh == after_acquire(
            mid,
            v.stale()[k].spec_coords(),
        ),
        forall|c: Coords|
            c != v.stale()[k].spec_coords() && mid.contains_key(c) ==> #[trigger] fresh.contains_key(
                c,
            ) && fresh[c] == mid[c],
        forall|c: Coords|
            c != v.stale()[k].spec_coords() && #[trigger] may_release(fresh, c) ==> may_release(
                mid,
                c,
            ),
    ensures
        stored(v.stale(), k + 1, c0, fresh),
        loaded(v.stale(), k + 1, c0, fresh, now),
        waiting(v.stale(), k + 1, v, now),
        kept(v.stale(), k + 1, k + 1, c0, fresh),
{
    let report = v.stale();
    let coords = report[k].spec_coords();
    let k1 = k + 1;
    lemma_report(v);
    lemma_untouched(v, k, k);
    assert(untouched(report, k1, k, coords));
    assert(kept(report, k1, k, c0, mid));
    if c0.contains_key(coords) {
        assert(mid.contains_key(coords) && mid[coords] == c0[coords]);
    }
    before.lemma_slot_of(coords);
    assert forall|abs: Coords| v.has(abs) && abs != coords implies now.slot(abs) == before.slot(
        abs,
    ) by {
        before.lemma_slot_of(abs);
    }
    assert forall|j: int| 0 <= j < k1 && (#[trigger] report[j]) is Evicted implies report[j]->old_coords
        != coords by {
        assert(!v.has(report[j]->old_coords));
    }
    assert forall|c: Coords| #[trigger] untouched(report, k1, k1, c) implies untouched(
        report,
        k1,
        k,
        c,
    ) && c != coords by {
        lemma_untouched_less(report, k1, k1, k1, k, c);
    }
    assert forall|c: Coords| c0.contains_key(c) && untouched(report, k1, k1, c) implies #[trigger]
        fresh.contains_key(c) && fresh[c] == c0[c] by {
        assert(untouched(report, k1, k, c));
        assert(mid.contains_key(c));
    }
    assert forall|c: Coords| #[trigger]
        may_release(fresh, c) && untouched(report, k1, k1, c) implies may_release(c0, c) by {
        assert(untouched(report, k1, k, c));
        assert(may_release(mid, c));
    }
    assert forall|j: int| 0 <= j < k1 && (#[trigger] report[j]) is Evicted implies {
        &&& may_release(c0, report[j]->old_coords)
        &&& fresh.contains_key(report[j]->old_coords)
        &&& fresh[report[j]->old_coords] == Entry::Cached(report[j]->value.chunk)
    } by {
        let o = report[j]->old_coords;
        assert(may_release(c0, o));
        assert(mid.contains_key(o));
        assert(mid[o] == Entry::Cached(report[j]->value.chunk));
        assert(o != coords);
        assert(fresh.contains_key(o) && fresh[o] == mid[o]);
    }
    assert forall|j: int| 0 <= j < k1 implies {
        let c = (#[trigger] report[j]).spec_coords();
        &&& may_acquire(c0, c)
        &&& c0.contains_key(c) ==> fresh.contains_key(c) && fresh[c] == Entry::<Chunk>::Borrowed
        &&& fresh_chunk(now.slot(c), c)
    } by {
        let c = report[j].spec_coords();
        assert(v.has(c));
        if j < k {
            assert(c != coords);
            assert(now.slot(c) == before.slot(c));
            if c0.contains_key(c) {
                assert(mid.contains_key(c) && mid[c] == Entry::<Chunk>::Borrowed);
                assert(fresh.contains_key(c) && fresh[c] == mid[c]);
            }
        } else {
            assert(c == coords);
            assert(!may_release(c0, coords));
            if c0.contains_key(coords) {
                assert(mid.contains_key(coords) && mid[coords] == c0[coords]);
                assert(acquired(mid, coords) is Some);
            }
        }
    }
    assert forall|j: int| k1 <= j < report.len() implies now.slot(
        (#[trigger] report[j]).spec_coords(),
    ) == StageView::swept(v.slot(report[j].spec_coords()), report[j].spec_coords()) by {
        assert(v.has(report[j].spec_coords()));
        assert(report[j].spec_coords() != coords);
    }
    assert forall|abs: Coords| v.has(abs) && in_place(v.slot(abs), abs) implies #[trigger] now.slot(
        abs,
    ) == v.slot(abs) by {
        assert(v.stale_at(coords) == seq![report[k]]);
        assert(abs != coords);
    }
}

/// A stage to which every chunk was loaded that its window lacked is
/// settled.
proof fn lemma_settled<M>(
    v: StageView<StageChunk<M>>,
    c0: Map<Coords, Entry<Chunk>>,
    now: StageView<StageChunk<M>>,
    cf: Map<Coords, Entry<Chunk>>,
)
    requires
        v.wf(),
        now.center == v.center,
        now.width == v.width,
        loaded(v.stale(), v.stale().len() as int, c0, cf, now),
        waiting(v.stale(), v.stale().len() as int, v, now),
    ensures
        now.settled(),
{
    let report = v.stale();
    lemma_report(v);
    assert forall|abs: Coords| now.has(abs) implies (#[trigger] now.slot(abs)).coords == abs
        && now.slot(abs).content is Some by {
        assert(v.has(abs));
        if !in_place(v.slot(abs), abs) {
            assert(v.stale_at(abs).len() > 0);
            let j = choose|j: int|
                0 <= j < report.len() && (#[trigger] report[j]).spec_coords() == abs;
            assert(fresh_chunk(now.slot(report[j].spec_coords()), abs));
        }
    }
}

/// Of the entry that an update takes next, nothing was done yet: neither
/// about the coordinate of the chunk that it lacks nor about the coordinate
/// of the chunk that it evicts.
proof fn lemma_untouched<M>(v: StageView<StageChunk<M>>, k: int, l: int)
    requires
        v.wf(),
        0 <= l <= k < v.stale().len(),
    ensures
        untouched(v.stale(), k + 1, l, v.stale()[k].spec_coords()),
        untouched(v.stale(), k + 1, k, v.stale()[k].spec_coords()),
        v.stale()[k] is Evicted ==> untouched(v.stale(), k, k, v.stale()[k]->old_coords),
{
    lemma_report(v);
}

/// Of what nothing was done, nothing was done before.
proof fn lemma_untouched_less<M>(report: Report<M>, s: int, l: int, s2: int, l2: int, c: Coords)
    requires
        untouched(report, s, l, c),
        s2 <= s,
        l2 <= l,
    ensures
        untouched(report, s2, l2, c),
{
}

/// What follows of an update's end: where the store and the maker have no
/// say, how it ends is decided; and an update that had nothing to do has
/// left the cache as it was.
proof fn lemma_ends<M>(
    v: StageView<StageChunk<M>>,
    c0: Map<Coords, Entry<Chunk>>,
    r: Result<usize, UpdateError>,
    s: int,
    l: int,
    made: int,
    now: StageView<StageChunk<M>>,
    cf: Map<Coords, Entry<Chunk>>,
)
    requires
        updated(v, c0, r, s, l, made, now, cf),
    ensures
        decided(v.stale(), c0, r),
        v.stale().len() == 0 ==> cf =~= c0,
{
    let report = v.stale();
    lemma_misses(report, l, c0);
    if report.len() == 0 {
        assert(cf.dom() =~= c0.dom());
        assert forall|c: Coords| c0.contains_key(c) implies cf[c] == c0[c] by {
            assert(untouched(report, s, l, c));
        }
    }
    if all_lent(report, c0) && all_cached(report, report.len() as int, c0) {
        assert(all_cached(report, l, c0));
        match r {
            Ok(m) => {},
            Err(UpdateError::NotLent(c)) => {
                assert(may_release(c0, report[s]->old_coords));
            },
            Err(UpdateError::Lent(c)) => {
                assert(acquired(c0, report[l].spec_coords()) is Some);
            },
            Err(UpdateError::Load(c, e)) => {
                assert(acquired(c0, report[l].spec_coords()) is Some);
            },
        }
    }
    if !all_lent(report, c0) {
        if r is Ok {
            let j = choose|j: int|
                0 <= j < report.len() && (#[trigger] report[j]) is Evicted && !may_release(
                    c0,
                    report[j]->old_coords,
                );
            assert(may_release(c0, report[j]->old_coords));
        }
    }
    assert forall|k: int|
        0 <= k < report.len() && (#[trigger] report[k]) is Evicted && !may_release(
            c0,
            report[k]->old_coords,
        ) && lent_upto(report, k, c0) && all_cached(report, k, c0) implies r == Err::<
        usize,
        UpdateError,
    >(UpdateError::NotLent(report[k]->old_coords)) by {
        if l <= k {
            assert(all_cached(report, l, c0));
        }
        match r {
            Ok(m) => {
                assert(may_release(c0, report[k]->old_coords));
            },
            Err(UpdateError::NotLent(c)) => {
                if s < k {
                    assert(may_release(c0, report[s]->old_coords));
                } else if s > k {
                    assert(may_release(c0, report[k]->old_coords));
                }
            },
            Err(UpdateError::Lent(c)) => {
                if l < k {
                    assert(acquired(c0, report[l].spec_coords()) is Some);
                } else {
                    assert(may_release(c0, report[k]->old_coords));
                }
            },
            Err(UpdateError::Load(c, e)) => {
                if l < k {
                    assert(acquired(c0, report[l].spec_coords()) is Some);
                } else {
                    assert(may_release(c0, report[k]->old_coords));
                }
            },
        }
    }
    assert forall|k: int|
        0 <= k < report.len() && may_release(c0, (#[trigger] report[k]).spec_coords())
            && lent_upto(report, k + 1, c0) && all_cached(report, k, c0) implies r == Err::<
        usize,
        UpdateError,
    >(UpdateError::Lent(report[k].spec_coords())) by {
        if l <= k {
            assert(all_cached(report, l, c0));
        } else {
            assert(may_acquire(c0, report[k].spec_coords()));
        }
        match r {
            Ok(m) => {},
            Err(UpdateError::NotLent(c)) => {
                if s <= k {
                    assert(may_release(c0, report[s]->old_coords));
                }
            },
            Err(UpdateError::Lent(c)) => {
                if l < k {
                    assert(acquired(c0, report[l].spec_coords()) is Some);
                }
            },
            Err(UpdateError::Load(c, e)) => {
                if l < k {
                    assert(acquired(c0, report[l].spec_coords()) is Some);
                }
            },
        }
    }
}

} // verus!
