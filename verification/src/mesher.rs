//! Turns a grid of blocks into the quads of its exposed faces.

use vstd::prelude::*;
use crate::array3d::{lemma_nth_index, Layout};
use crate::block;
use crate::block::Block;
use crate::math::{V2, V2u8, V3, V3u8};
use crate::math::iter::{box_points, cells, ints3, SpaceIter};

verus! {

/// The colour of a face.
#[derive(Clone, Copy, PartialEq, Eq, Structural, Debug)]
pub struct RGB {
    pub r: u8,
    pub g: u8,
    pub b: u8,
}

impl RGB {
    pub fn new(r: u8, g: u8, b: u8) -> (c: RGB)
        ensures
            c == (RGB { r, g, b }),
    {
        RGB { r, g, b }
    }
}

/// The side of a cell that a face closes: out along an axis or in against
/// it.
#[derive(Clone, Copy, PartialEq, Eq, Structural, Debug)]
pub enum Direction {
    ZOut,
    YOut,
    XOut,
    ZIn,
    YIn,
    XIn,
}

impl Direction {
    /// The number that stands for the direction in an instance record.
    pub open spec fn spec_code(self) -> u8 {
        match self {
            Direction::ZOut => 0,
            Direction::YOut => 1,
            Direction::XOut => 2,
            Direction::ZIn => 3,
            Direction::YIn => 4,
            Direction::XIn => 5,
        }
    }

    /// The direction that `code` stands for.
    pub open spec fn of_code(code: u8) -> Direction {
        if code == 0 {
            Direction::ZOut
        } else if code == 1 {
            Direction::YOut
        } else if code == 2 {
            Direction::XOut
        } else if code == 3 {
            Direction::ZIn
        } else if code == 4 {
            Direction::YIn
        } else {
            Direction::XIn
        }
    }

    /// The number that stands for the direction in an instance record.
    pub fn code(self) -> (r: u8)
        ensures
            r == self.spec_code(),
            Direction::of_code(r) == self,
    {
        match self {
            Direction::ZOut => 0,
            Direction::YOut => 1,
            Direction::XOut => 2,
            Direction::ZIn => 3,
            Direction::YIn => 4,
            Direction::XIn => 5,
        }
    }
}

/// One face of a block, as the mesher hands it to a builder.
#[derive(Clone, Copy, PartialEq, Eq, Structural, Debug)]
pub struct Quad {
    pub pos: V3u8,
    pub dir: Direction,
    pub color: RGB,
    pub tcoords: V2u8,
    pub rotate: u8,
}

/// A drawable made of quads.
pub trait Mesh {
    /// The quads that the mesh was baked from.
    spec fn quads(&self) -> Seq<Quad>;
}

/// Collects quads and bakes them into a mesh.
pub trait MeshBuilder {
    type Mesh: Mesh;

    /// The quads added since the last bake.
    spec fn pending(&self) -> Seq<Quad>;

    /// Adds one quad behind those already pending.
    fn add_quad(&mut self, pos: V3u8, dir: Direction, color: RGB, tcoords: V2u8, rotate: u8)
        ensures
            final(self).pending() == old(self).pending().push(
                Quad { pos, dir, color, tcoords, rotate },
            ),
    ;

    /// Makes a mesh of the pending quads, after which none is pending.
    fn bake(&mut self) -> (mesh: Self::Mesh)
        ensures
            mesh.quads() == old(self).pending(),
            final(self).pending() == Seq::<Quad>::empty(),
    ;
}

/// One record of an instance buffer, twelve bytes: the place of the quad
/// and the code of its direction; its colour and full opacity; its texture
/// tile; its rotation tag and a byte of padding.
pub type Instance = [u8; 12];

/// The instance record of `q`.
pub open spec fn pack(q: Quad) -> Seq<u8> {
    seq![
        q.pos.x,
        q.pos.y,
        q.pos.z,
        q.dir.spec_code(),
        q.color.r,
        q.color.g,
        q.color.b,
        255u8,
        q.tcoords.x,
        q.tcoords.y,
        q.rotate,
        0u8,
    ]
}

/// The quad that an instance record stands for.
pub open spec fn unpack(record: Seq<u8>) -> Quad {
    Quad {
        pos: V3 { x: record[0], y: record[1], z: record[2] },
        dir: Direction::of_code(record[3]),
        color: RGB { r: record[4], g: record[5], b: record[6] },
        tcoords: V2 { x: record[8], y: record[9] },
        rotate: record[10],
    }
}

/// Packing loses nothing of a quad.
pub proof fn lemma_unpack_pack(q: Quad)
    ensures
        unpack(pack(q)) == q,
        pack(q).len() == 12,
{
}

/// The quads that a buffer of instance records stands for.
pub open spec fn unpacked(records: Seq<Instance>) -> Seq<Quad> {
    Seq::new(records.len(), |i: int| unpack(records[i]@))
}

/// Quads baked into a buffer of instance records, one record for each quad,
/// ready to be drawn as that many instances.
pub struct InstancedQuadMesh {
    pub instances: Vec<Instance>,
}

impl Mesh for InstancedQuadMesh {
    open spec fn quads(&self) -> Seq<Quad> {
        unpacked(self.instances@)
    }
}

impl InstancedQuadMesh {
    /// The number of quads, which is the number of instances to draw.
    pub fn n_quads(&self) -> (n: usize)
        ensures
            n == self.quads().len(),
    {
        self.instances.len()
    }
}

/// Builds an instance buffer, one record for each quad added.
pub struct InstancedQuadMeshBuilder {
    pub quads: Vec<Instance>,
}

impl InstancedQuadMeshBuilder {
    pub fn new() -> (r: InstancedQuadMeshBuilder)
        ensures
            r.pending() == Seq::<Quad>::empty(),
    {
        let r = InstancedQuadMeshBuilder { quads: Vec::new() };
        r
    }
}

impl MeshBuilder for InstancedQuadMeshBuilder {
    type Mesh = InstancedQuadMesh;

    open spec fn pending(&self) -> Seq<Quad> {
        unpacked(self.quads@)
    }

    /// Adds the record of one quad. The record holds the quad whole:
    /// `pack` of the quad is the record added.
    fn add_quad(&mut self, pos: V3u8, dir: Direction, color: RGB, tcoords: V2u8, rotate: u8)
        ensures
            final(self).quads@ == old(self).quads@.push(final(self).quads@.last()),
            final(self).quads@.last()@ == pack(Quad { pos, dir, color, tcoords, rotate }),
    {
        let record: Instance = [
            pos.x,
            pos.y,
            pos.z,
            dir.code(),
            color.r,
            color.g,
            color.b,
            255,
            tcoords.x,
            tcoords.y,
            rotate,
            0,
        ];
        self.quads.push(record);
        proof {
            let q = Quad { pos, dir, color, tcoords, rotate };
            lemma_unpack_pack(q);
        }
    }

    fn bake(&mut self) -> (mesh: InstancedQuadMesh) {
        let mut instances: Vec<Instance> = Vec::new();
        core::mem::swap(&mut self.quads, &mut instances);
        InstancedQuadMesh { instances }
    }
}

impl Block {
    /// The colour of a face of the block.
    pub open spec fn spec_color(self) -> RGB {
        RGB { r: 255, g: 255, b: 255 }
    }

    /// The texture tile of the face of the block that looks in `dir`.
    pub open spec fn spec_tcoords(self, dir: Direction) -> V2<u8> {
        match self {
            Block::Stone => V2 { x: 0, y: 0 },
            Block::Grass => match dir {
                Direction::ZOut => V2 { x: 1, y: 0 },
                Direction::ZIn => V2 { x: 2, y: 0 },
                _ => V2 { x: 3, y: 0 },
            },
            Block::Soil => V2 { x: 2, y: 0 },
            Block::TreeTrunk => match dir {
                Direction::ZIn | Direction::ZOut => V2 { x: 5, y: 0 },
                _ => V2 { x: 4, y: 0 },
            },
            Block::Empty => V2 { x: 0, y: 0 },
        }
    }

    /// Whether the texture of the face of the block that looks in `dir` may
    /// be turned.
    pub open spec fn spec_rotate(self, dir: Direction) -> bool {
        match self {
            Block::Stone | Block::Soil => true,
            Block::Grass => dir == Direction::ZOut,
            Block::TreeTrunk => dir == Direction::ZOut || dir == Direction::ZIn,
            Block::Empty => false,
        }
    }

    /// The colour of a face of the block.
    pub fn color(self) -> (c: RGB)
        requires
            self != Block::Empty,
        ensures
            c == self.spec_color(),
    {
        RGB::new(255, 255, 255)
    }

    /// The texture tile of the face of the block that looks in `dir`.
    pub fn tcoords(self, dir: Direction) -> (t: V2u8)
        requires
            self != Block::Empty,
        ensures
            t == self.spec_tcoords(dir),
    {
        match self {
            Block::Stone => V2::new(0, 0),
            Block::Grass => match dir {
                Direction::ZOut => V2::new(1, 0),
                Direction::ZIn => V2::new(2, 0),
                _ => V2::new(3, 0),
            },
            Block::Soil => V2::new(2, 0),
            Block::TreeTrunk => match dir {
                Direction::ZIn | Direction::ZOut => V2::new(5, 0),
                _ => V2::new(4, 0),
            },
            Block::Empty => vstd::pervasive::unreached(),
        }
    }

    /// Whether the texture of the face of the block that looks in `dir` may
    /// be turned.
    pub fn rotate(self, dir: Direction) -> (r: bool)
        requires
            self != Block::Empty,
        ensures
            r == self.spec_rotate(dir),
    {
        match self {
            Block::Stone | Block::Soil => true,
            Block::Grass => dir == Direction::ZOut,
            Block::TreeTrunk => dir == Direction::ZOut || dir == Direction::ZIn,
            Block::Empty => vstd::pervasive::unreached(),
        }
    }
}

/// The tag by which the texture of a face is turned: a hash of the place of
/// the cell from which the face was found.
pub open spec fn position_hash(pos: V3<u8>) -> u8 {
    pos.x.wrapping_mul(251) ^ pos.y.wrapping_mul(199) ^ pos.z.wrapping_mul(151)
}

/// The quad for the face of `block` at `pos` that looks in `dir`, found from
/// a cell whose hash is `hash`.
pub open spec fn face(pos: V3<u8>, dir: Direction, block: Block, hash: u8) -> Quad {
    Quad {
        pos,
        dir,
        color: block.spec_color(),
        tcoords: block.spec_tcoords(dir),
        rotate: if block.spec_rotate(dir) {
            hash
        } else {
            0
        },
    }
}

/// The quad, if any, between a cell holding `block` at `pos` and its
/// neighbour holding `next` at `beyond`: where exactly one of the two is
/// empty, the face of the other that looks at the empty one.
pub open spec fn boundary(
    block: Block,
    next: Block,
    pos: V3<u8>,
    beyond: V3<u8>,
    out: Direction,
    inward: Direction,
    hash: u8,
) -> Seq<Quad> {
    if block != Block::Empty && next == Block::Empty {
        seq![face(pos, out, block, hash)]
    } else if block == Block::Empty && next != Block::Empty {
        seq![face(beyond, inward, next, hash)]
    } else {
        Seq::empty()
    }
}

/// The quads found from the cell at `ijk`: those between it and its
/// neighbours one step on along z, then y, then x.
pub open spec fn quads_at(input: block::Slice<'_>, ijk: V3<usize>) -> Seq<Quad> {
    let pos = V3 { x: ijk.x as u8, y: ijk.y as u8, z: ijk.z as u8 };
    let hash = position_hash(pos);
    let block = input.at(ijk);
    boundary(
        block,
        input.at(V3 { x: ijk.x, y: ijk.y, z: (ijk.z + 1) as usize }),
        pos,
        V3 { x: pos.x, y: pos.y, z: (pos.z + 1) as u8 },
        Direction::ZOut,
        Direction::ZIn,
        hash,
    ) + boundary(
        block,
        input.at(V3 { x: ijk.x, y: (ijk.y + 1) as usize, z: ijk.z }),
        pos,
        V3 { x: pos.x, y: (pos.y + 1) as u8, z: pos.z },
        Direction::YOut,
        Direction::YIn,
        hash,
    ) + boundary(
        block,
        input.at(V3 { x: (ijk.x + 1) as usize, y: ijk.y, z: ijk.z }),
        pos,
        V3 { x: (pos.x + 1) as u8, y: pos.y, z: pos.z },
        Direction::XOut,
        Direction::XIn,
        hash,
    )
}

/// The extent of the cells from which faces are sought: all of `input` but
/// its last layer along each axis, which is only looked at as a neighbour.
pub open spec fn inner(input: block::Slice<'_>) -> V3<usize> {
    V3 {
        x: (input.extent().x - 1) as usize,
        y: (input.extent().y - 1) as usize,
        z: (input.extent().z - 1) as usize,
    }
}

/// The quads found from the first `n` cells in row-major order.
pub open spec fn quads_upto(input: block::Slice<'_>, n: nat) -> Seq<Quad>
    decreases n,
{
    if n == 0 {
        Seq::empty()
    } else {
        quads_upto(input, (n - 1) as nat) + quads_at(
            input,
            Layout::plain(inner(input)).nth(n - 1),
        )
    }
}

/// The quads of `input`: one for each face between a solid cell and an empty
/// one, where the first of the two is not in the last layer along any axis.
pub open spec fn mesh_quads(input: block::Slice<'_>) -> Seq<Quad> {
    quads_upto(input, cells(inner(input).ints()) as nat)
}

/// Whether `input` can be meshed: it has a layer to spare along each axis,
/// and the places of its cells fit in a `u8`.
pub open spec fn meshable(input: block::Slice<'_>) -> bool {
    &&& input.wf()
    &&& 1 <= input.extent().x <= 256
    &&& 1 <= input.extent().y <= 256
    &&& 1 <= input.extent().z <= 256
}

/// Makes meshes from grids of blocks.
pub trait Mesher {
    /// Whether the mesher can mesh `input`.
    spec fn accepts(&self, input: block::Slice<'_>) -> bool;

    /// The quads that the mesher finds in `input`.
    spec fn quads_of(&self, input: block::Slice<'_>) -> Seq<Quad>;

    /// Adds the quads of `input` to `builder`, behind those that it has
    /// pending, and bakes them all.
    fn make_mesh<B: MeshBuilder>(&self, input: block::Slice<'_>, builder: &mut B) -> (mesh: B::Mesh)
        requires
            self.accepts(input),
        ensures
            mesh.quads() == old(builder).pending() + self.quads_of(input),
            final(builder).pending() == Seq::<Quad>::empty(),
    ;
}

/// The mesher that gives one quad for each exposed face.
pub struct Simple {}

impl Simple {
    pub fn new() -> Simple {
        Simple {  }
    }
}

/// Hands the builder the face of `block` at `pos` that looks in `dir`.
fn add_face<B: MeshBuilder>(builder: &mut B, pos: V3u8, dir: Direction, block: Block, hash: u8)
    requires
        block != Block::Empty,
    ensures
        final(builder).pending() == old(builder).pending().push(face(pos, dir, block, hash)),
{
    let color = block.color();
    let tcoords = block.tcoords(dir);
    let rotate = if block.rotate(dir) {
        hash
    } else {
        0
    };
    builder.add_quad(pos, dir, color, tcoords, rotate);
}

/// Hands the builder the quad, if any, between a cell and its neighbour.
fn add_boundary<B: MeshBuilder>(
    builder: &mut B,
    block: Block,
    next: Block,
    pos: V3u8,
    beyond: V3u8,
    out: Direction,
    inward: Direction,
    hash: u8,
)
    ensures
        final(builder).pending() == old(builder).pending() + boundary(
            block,
            next,
            pos,
            beyond,
            out,
            inward,
            hash,
        ),
{
    if block.is_nonempty() {
        if next.is_empty() {
            add_face(builder, pos, out, block, hash);
        }
    } else {
        if next.is_nonempty() {
            add_face(builder, beyond, inward, next, hash);
        }
    }
    proof {
        assert(builder.pending() =~= old(builder).pending() + boundary(
            block,
            next,
            pos,
            beyond,
            out,
            inward,
            hash,
        ));
    }
}

impl Mesher for Simple {
    open spec fn accepts(&self, input: block::Slice<'_>) -> bool {
        meshable(input)
    }

    open spec fn quads_of(&self, input: block::Slice<'_>) -> Seq<Quad> {
        mesh_quads(input)
    }

    fn make_mesh<B: MeshBuilder>(&self, input: block::Slice<'_>, builder: &mut B) -> (mesh: B::Mesh) {
        let dims = input.dims();
        let ends = V3 { x: dims.x - 1, y: dims.y - 1, z: dims.z - 1 };
        let ghost l = Layout::plain(ends);
        let mut it = SpaceIter::new(V3::<usize>::zeros(), ends);
        proof {
            assert(cells(ends.ints()) <= 256 * (256 * 256)) by (nonlinear_arith)
                requires
                    0 <= ends.x < 256,
                    0 <= ends.y < 256,
                    0 <= ends.z < 256,
                    cells(ends.ints()) == if ends.x <= 0 || ends.y <= 0 || ends.z <= 0 {
                        0
                    } else {
                        ends.x * (ends.y * ends.z)
                    },
            ;
        }
        loop
            invariant
                meshable(input),
                ends == inner(input),
                l == Layout::plain(ends),
                l.wf(),
                it.orig() == (V3 { x: 0int, y: 0int, z: 0int }),
                it.ends() == ends.ints(),
                box_points(it.orig(), it.ends()).len() == l.volume(),
                0 <= it.position() <= l.volume(),
                builder.pending() == old(builder).pending() + quads_upto(
                    input,
                    it.position() as nat,
                ),
            ensures
                builder.pending() == old(builder).pending() + mesh_quads(input),
            decreases l.volume() - it.position(),
        {
            let ghost n = it.position();
            match it.next() {
                Some(xyz) => {
                    proof {
                        lemma_nth_index(l);
                        assert(ints3(xyz) == l.nth(n).ints()) by {
                            crate::math::iter::lemma_rank_of_unrank(ends.ints(), n);
                        }
                    }
                    let pos = V3 { x: xyz.x as u8, y: xyz.y as u8, z: xyz.z as u8 };
                    let hash = pos.x.wrapping_mul(251) ^ pos.y.wrapping_mul(199) ^ pos.z.wrapping_mul(
                        151,
                    );
                    let block = *input.get(xyz);
                    let bz = *input.get(V3 { x: xyz.x, y: xyz.y, z: xyz.z + 1 });
                    let by = *input.get(V3 { x: xyz.x, y: xyz.y + 1, z: xyz.z });
                    let bx = *input.get(V3 { x: xyz.x + 1, y: xyz.y, z: xyz.z });
                    add_boundary(
                        builder,
                        block,
                        bz,
                        pos,
                        V3 { x: pos.x, y: pos.y, z: pos.z + 1 },
                        Direction::ZOut,
                        Direction::ZIn,
                        hash,
                    );
                    add_boundary(
                        builder,
                        block,
                        by,
                        pos,
                        V3 { x: pos.x, y: pos.y + 1, z: pos.z },
                        Direction::YOut,
                        Direction::YIn,
                        hash,
                    );
                    add_boundary(
                        builder,
                        block,
                        bx,
                        pos,
                        V3 { x: pos.x + 1, y: pos.y, z: pos.z },
                        Direction::XOut,
                        Direction::XIn,
                        hash,
                    );
                    proof {
                        assert(quads_upto(input, (n + 1) as nat) == quads_upto(input, n as nat)
                            + quads_at(input, l.nth(n)));
                        assert(builder.pending() =~= old(builder).pending() + quads_upto(
                            input,
                            (n + 1) as nat,
                        ));
                    }
                },
                None => {
                    break ;
                },
            }
        }
        builder.bake()
    }
}

/// Where no cell of `input` is empty, no face is exposed:
/// the first `n` cells give no quad, whatever `n`, and so the mesh has none.
pub proof fn lemma_all_solid_no_quads(input: block::Slice<'_>, n: nat)
    requires
        meshable(input),
        forall|ijk: V3<usize>| input.has(ijk) ==> input.at(ijk) != Block::Empty,
        n <= cells(inner(input).ints()),
    ensures
        quads_upto(input, n) == Seq::<Quad>::empty(),
        mesh_quads(input) == Seq::<Quad>::empty(),
    decreases cells(inner(input).ints()) - n,
{
    let total = cells(inner(input).ints()) as nat;
    lemma_solid_prefix(input, total);
    lemma_solid_prefix(input, n);
}

proof fn lemma_solid_prefix(input: block::Slice<'_>, n: nat)
    requires
        meshable(input),
        forall|ijk: V3<usize>| input.has(ijk) ==> input.at(ijk) != Block::Empty,
        n <= cells(inner(input).ints()),
    ensures
        quads_upto(input, n) == Seq::<Quad>::empty(),
    decreases n,
{
    if n > 0 {
        let l = Layout::plain(inner(input));
        lemma_solid_prefix(input, (n - 1) as nat);
        assert(cells(l.whole.ints()) <= 256 * (256 * 256)) by (nonlinear_arith)
            requires
                0 <= l.whole.x < 256,
                0 <= l.whole.y < 256,
                0 <= l.whole.z < 256,
                cells(l.whole.ints()) == if l.whole.x <= 0 || l.whole.y <= 0 || l.whole.z <= 0 {
                    0
                } else {
                    l.whole.x * (l.whole.y * l.whole.z)
                },
        ;
        lemma_nth_index(l);
    }
}

} // verus!
