//! Dense three-dimensional arrays over a flat backing sequence, with an
//! extent fixed by the type or chosen at run time, and views of sub-regions.

use vstd::prelude::*;
use vstd::std_specs::cmp::{PartialEqSpec, PartialEqSpecImpl};
use crate::math::{sum3, V3, V3usize};
use crate::math::iter::{
    cells,
    ints3,
    inside,
    SpaceIter,
    lemma_rank_bounds,
    lemma_rank_lex,
    lemma_rank_of_unrank,
    lemma_unrank_monotone,
    lemma_unrank_of_rank,
    rank,
    unrank,
};

verus! {

/// How the cells of an array lie on the sequence that backs it. The array
/// covers the box `[offset, offset + dims)` of a row-major grid of extent
/// `whole`; an array that is no view of another covers its whole grid.
pub struct Layout {
    pub whole: V3<usize>,
    pub offset: V3<usize>,
    pub dims: V3<usize>,
}

impl Layout {
    /// The layout of an array of extent `dims` that covers its whole grid.
    pub open spec fn plain(dims: V3<usize>) -> Layout {
        Layout { whole: dims, offset: V3 { x: 0, y: 0, z: 0 }, dims }
    }

    /// The layout of the view of this array that starts at `offset` and has
    /// extent `dims`.
    pub open spec fn sub(self, offset: V3<usize>, dims: V3<usize>) -> Layout {
        Layout {
            whole: self.whole,
            offset: V3 {
                x: (self.offset.x + offset.x) as usize,
                y: (self.offset.y + offset.y) as usize,
                z: (self.offset.z + offset.z) as usize,
            },
            dims,
        }
    }

    /// Whether the box `[offset, offset + dims)` lies inside the box
    /// `[0, self.dims)`.
    pub open spec fn admits(self, offset: V3<usize>, dims: V3<usize>) -> bool {
        &&& offset.x + dims.x <= self.dims.x
        &&& offset.y + dims.y <= self.dims.y
        &&& offset.z + dims.z <= self.dims.z
    }

    /// The covered box lies inside the grid, and the grid has no more cells
    /// than a `usize` can count.
    pub open spec fn wf(self) -> bool {
        &&& cells(self.whole.ints()) <= usize::MAX
        &&& self.offset.x + self.dims.x <= self.whole.x
        &&& self.offset.y + self.dims.y <= self.whole.y
        &&& self.offset.z + self.dims.z <= self.whole.z
    }

    /// The length of the backing sequence.
    pub open spec fn len(self) -> int {
        cells(self.whole.ints())
    }

    /// The number of cells of the array.
    pub open spec fn volume(self) -> int {
        cells(self.dims.ints())
    }

    /// Whether `ijk` is an index of the array.
    pub open spec fn contains(self, ijk: V3<usize>) -> bool {
        inside(self.dims.ints(), ijk.ints())
    }

    /// The position in the backing sequence of the cell at `ijk`:
    /// `i * (Y * Z) + j * Z + k` on the grid, after the offset is added.
    pub open spec fn flat(self, ijk: V3<usize>) -> int {
        rank(self.whole.ints(), sum3(self.offset.ints(), ijk.ints()))
    }

    /// Whether position `f` of the backing sequence holds a cell of the array.
    pub open spec fn covers(self, f: int) -> bool {
        let p = unrank(self.whole.ints(), f);
        &&& 0 <= f < self.len()
        &&& self.offset.x <= p.x < self.offset.x + self.dims.x
        &&& self.offset.y <= p.y < self.offset.y + self.dims.y
        &&& self.offset.z <= p.z < self.offset.z + self.dims.z
    }

    /// The index whose cell lies at position `f` of the backing sequence.
    pub open spec fn index_at(self, f: int) -> V3<usize> {
        let p = unrank(self.whole.ints(), f);
        V3 {
            x: (p.x - self.offset.x) as usize,
            y: (p.y - self.offset.y) as usize,
            z: (p.z - self.offset.z) as usize,
        }
    }

    /// The `n`-th index of the array in row-major order.
    pub open spec fn nth(self, n: int) -> V3<usize> {
        let p = unrank(self.dims.ints(), n);
        V3 { x: p.x as usize, y: p.y as usize, z: p.z as usize }
    }
}

proof fn lemma_cells_monotonic(a: V3<int>, b: V3<int>)
    by (nonlinear_arith)
    requires
        0 <= a.x <= b.x,
        0 <= a.y <= b.y,
        0 <= a.z <= b.z,
    ensures
        0 <= cells(a) <= cells(b),
        0 <= a.y * a.z <= b.y * b.z,
        a.x > 0 ==> a.y * a.z <= cells(a),
        cells(a) == a.x * (a.y * a.z),
        cells(a) == a.x * a.y * a.z,
{
}

/// In a well-formed layout every index of the array
/// has a position inside the backing sequence, that position is covered and
/// leads back to the index, and two indices with one position are the same
/// index.
pub proof fn lemma_flat_index(l: Layout, ijk: V3<usize>)
    requires
        l.wf(),
        l.contains(ijk),
    ensures
        0 <= l.flat(ijk) < l.len(),
        l.covers(l.flat(ijk)),
        l.index_at(l.flat(ijk)) == ijk,
        forall|other: V3<usize>|
            l.contains(other) && #[trigger] l.flat(other) == l.flat(ijk) ==> other == ijk,
{
    let p = sum3(l.offset.ints(), ijk.ints());
    lemma_rank_bounds(l.whole.ints(), p);
    lemma_unrank_of_rank(l.whole.ints(), p);
    assert forall|other: V3<usize>|
        l.contains(other) && #[trigger] l.flat(other) == l.flat(ijk) implies other == ijk by {
        let q = sum3(l.offset.ints(), other.ints());
        lemma_unrank_of_rank(l.whole.ints(), q);
    }
}

/// Every covered position of the backing sequence is the position of an index
/// of the array.
pub proof fn lemma_covered(l: Layout, f: int)
    requires
        l.wf(),
        l.covers(f),
    ensures
        l.contains(l.index_at(f)),
        l.flat(l.index_at(f)) == f,
{
    lemma_rank_of_unrank(l.whole.ints(), f);
}

/// The indices of an array in row-major order: each `n` below the volume
/// names an index of the array, whose rank among them is `n`; and each index
/// of the array is named by its rank. So every index comes exactly once.
pub proof fn lemma_nth_index(l: Layout)
    requires
        l.wf(),
    ensures
        0 <= l.volume() <= l.len(),
        forall|n: int| 0 <= n < l.volume() ==> l.contains(#[trigger] l.nth(n)),
        forall|n: int|
            0 <= n < l.volume() ==> rank(l.dims.ints(), (#[trigger] l.nth(n)).ints()) == n,
        forall|ijk: V3<usize>|
            l.contains(ijk) ==> 0 <= #[trigger] rank(l.dims.ints(), ijk.ints()) < l.volume(),
        forall|ijk: V3<usize>|
            l.contains(ijk) ==> l.nth(#[trigger] rank(l.dims.ints(), ijk.ints())) == ijk,
{
    lemma_cells_monotonic(l.dims.ints(), l.whole.ints());
    assert forall|n: int| 0 <= n < l.volume() implies l.contains(#[trigger] l.nth(n)) && rank(
        l.dims.ints(),
        l.nth(n).ints(),
    ) == n by {
        lemma_rank_of_unrank(l.dims.ints(), n);
    }
    assert forall|ijk: V3<usize>| l.contains(ijk) implies 0 <= #[trigger] rank(
        l.dims.ints(),
        ijk.ints(),
    ) < l.volume() && l.nth(rank(l.dims.ints(), ijk.ints())) == ijk by {
        lemma_rank_bounds(l.dims.ints(), ijk.ints());
        lemma_unrank_of_rank(l.dims.ints(), ijk.ints());
    }
}

/// Along the row-major order of its indices, the cells of an array lie
/// further and further on in the backing sequence.
pub proof fn lemma_flat_monotone(l: Layout, m: int, n: int)
    requires
        l.wf(),
        0 <= m < n < l.volume(),
    ensures
        l.flat(l.nth(m)) < l.flat(l.nth(n)),
{
    lemma_nth_index(l);
    lemma_unrank_monotone(l.dims.ints(), m, n);
    lemma_rank_of_unrank(l.dims.ints(), m);
    lemma_rank_of_unrank(l.dims.ints(), n);
    lemma_rank_lex(
        l.whole.ints(),
        sum3(l.offset.ints(), l.nth(m).ints()),
        sum3(l.offset.ints(), l.nth(n).ints()),
    );
}

/// The number of cells of a box of extent `d`.
fn product(d: V3usize) -> (r: usize)
    requires
        cells(d.ints()) <= usize::MAX,
    ensures
        r == cells(d.ints()),
{
    if d.x == 0 || d.y == 0 || d.z == 0 {
        0
    } else {
        proof {
            lemma_cells_monotonic(d.ints(), d.ints());
            assert(d.y * d.z <= d.x * (d.y * d.z)) by (nonlinear_arith)
                requires
                    d.x >= 1,
                    d.y >= 1,
                    d.z >= 1,
            ;
        }
        d.x * (d.y * d.z)
    }
}

/// The row-major rank of `p` on a grid of extent `whole`.
fn flatten(whole: V3usize, p: V3usize) -> (r: usize)
    requires
        cells(whole.ints()) <= usize::MAX,
        inside(whole.ints(), p.ints()),
    ensures
        r == rank(whole.ints(), p.ints()),
        r < cells(whole.ints()),
{
    proof {
        lemma_rank_bounds(whole.ints(), p.ints());
        lemma_cells_monotonic(whole.ints(), whole.ints());
        assert(0 <= p.x * (whole.y * whole.z) <= rank(whole.ints(), p.ints()) && 0 <= p.y * whole.z
            <= rank(whole.ints(), p.ints())) by (nonlinear_arith)
            requires
                rank(whole.ints(), p.ints()) == p.x * (whole.y * whole.z) + p.y * whole.z + p.z,
        ;
    }
    p.x * (whole.y * whole.z) + p.y * whole.z + p.z
}

/// The extent of an array, and where its cells lie on the backing sequence.
pub trait Dims: Clone {
    /// The layout that this extent stands for.
    spec fn layout(&self) -> Layout;

    /// The extent along each axis.
    fn dims(&self) -> (r: V3usize)
        ensures
            r == self.layout().dims,
    ;

    /// The extent of the grid that the backing sequence holds.
    fn whole(&self) -> (r: V3usize)
        ensures
            r == self.layout().whole,
    ;

    /// Where on that grid the array starts.
    fn offset(&self) -> (r: V3usize)
        ensures
            r == self.layout().offset,
    ;

    /// The number of cells: the product of the extents.
    fn volume(&self) -> (r: usize)
        requires
            self.layout().wf(),
        ensures
            r == self.layout().volume(),
    ;

    /// The position of the cell at `ijk` in the backing sequence.
    fn flat_index(&self, ijk: V3usize) -> (r: usize)
        requires
            self.layout().wf(),
            self.layout().contains(ijk),
        ensures
            r == self.layout().flat(ijk),
            r < self.layout().len(),
    ;

    /// The same extent, chosen at run time, for an array that covers its
    /// whole grid.
    fn as_dynamic(&self) -> (r: DynamicDims)
        ensures
            r.0 == self.layout().dims,
    ;
}

/// Names the storage in which an array of this extent owns its cells.
pub trait OwnHold<T> {
    type OwnType: HoldMut<Element = T>;
}

/// An extent chosen at run time.
#[derive(Clone, Copy, Debug)]
pub struct DynamicDims(pub V3usize);

impl Dims for DynamicDims {
    open spec fn layout(&self) -> Layout {
        Layout::plain(self.0)
    }

    fn dims(&self) -> (r: V3usize) {
        self.0
    }

    fn whole(&self) -> (r: V3usize) {
        self.0
    }

    fn offset(&self) -> (r: V3usize) {
        V3 { x: 0, y: 0, z: 0 }
    }

    fn volume(&self) -> (r: usize) {
        product(self.0)
    }

    fn flat_index(&self, ijk: V3usize) -> (r: usize) {
        flatten(self.0, ijk)
    }

    fn as_dynamic(&self) -> (r: DynamicDims) {
        DynamicDims(self.0)
    }
}

impl<T> OwnHold<T> for DynamicDims {
    type OwnType = Vec<T>;
}

/// The extent of a view: a box inside the grid of another array.
#[derive(Clone, Copy, Debug)]
pub struct SliceDims {
    pub whole: DynamicDims,
    pub offset: V3usize,
    pub dims: V3usize,
}

impl Dims for SliceDims {
    open spec fn layout(&self) -> Layout {
        Layout { whole: self.whole.0, offset: self.offset, dims: self.dims }
    }

    fn dims(&self) -> (r: V3usize) {
        self.dims
    }

    fn whole(&self) -> (r: V3usize) {
        self.whole.0
    }

    fn offset(&self) -> (r: V3usize) {
        self.offset
    }

    fn volume(&self) -> (r: usize) {
        proof {
            lemma_cells_monotonic(self.dims.ints(), self.whole.0.ints());
        }
        product(self.dims)
    }

    fn flat_index(&self, ijk: V3usize) -> (r: usize) {
        flatten(
            self.whole.0,
            V3 { x: self.offset.x + ijk.x, y: self.offset.y + ijk.y, z: self.offset.z + ijk.z },
        )
    }

    fn as_dynamic(&self) -> (r: DynamicDims) {
        DynamicDims(self.dims)
    }
}

/// An extent fixed by the type.
pub trait StaticDims: Default + Clone {
    const X: usize;
    const Y: usize;
    const Z: usize;
}

impl<D: StaticDims> Dims for D {
    open spec fn layout(&self) -> Layout {
        Layout::plain(V3 { x: D::X, y: D::Y, z: D::Z })
    }

    fn dims(&self) -> (r: V3usize) {
        V3 { x: D::X, y: D::Y, z: D::Z }
    }

    fn whole(&self) -> (r: V3usize) {
        V3 { x: D::X, y: D::Y, z: D::Z }
    }

    fn offset(&self) -> (r: V3usize) {
        V3 { x: 0, y: 0, z: 0 }
    }

    fn volume(&self) -> (r: usize) {
        product(V3 { x: D::X, y: D::Y, z: D::Z })
    }

    fn flat_index(&self, ijk: V3usize) -> (r: usize) {
        flatten(V3 { x: D::X, y: D::Y, z: D::Z }, ijk)
    }

    fn as_dynamic(&self) -> (r: DynamicDims) {
        DynamicDims(V3 { x: D::X, y: D::Y, z: D::Z })
    }
}

impl<D: StaticDims, T> OwnHold<T> for D {
    type OwnType = Vec<T>;
}

/// Storage from which the cells of an array can be read.
pub trait Hold {
    type Element;

    /// The stored sequence.
    spec fn items(&self) -> Seq<Self::Element>;

    fn as_ref(&self) -> (r: &[Self::Element])
        ensures
            r@ == self.items(),
    ;
}

/// Storage in which the cells of an array can also be changed.
pub trait HoldMut: Hold {
    fn as_mut(&mut self) -> (r: &mut [Self::Element])
        ensures
            r@ == old(self).items(),
            final(self).items() == final(r)@,
    ;
}

impl<T> Hold for Vec<T> {
    type Element = T;

    open spec fn items(&self) -> Seq<T> {
        self@
    }

    fn as_ref(&self) -> (r: &[T]) {
        self.as_slice()
    }
}

impl<T> HoldMut for Vec<T> {
    fn as_mut(&mut self) -> (r: &mut [T]) {
        self.as_mut_slice()
    }
}

impl<'a, T> Hold for &'a [T] {
    type Element = T;

    open spec fn items(&self) -> Seq<T> {
        (*self)@
    }

    fn as_ref(&self) -> (r: &[T]) {
        *self
    }
}

impl<'a, T> Hold for &'a mut [T] {
    type Element = T;

    open spec fn items(&self) -> Seq<T> {
        (*self)@
    }

    fn as_ref(&self) -> (r: &[T]) {
        &**self
    }
}

impl<'a, T> HoldMut for &'a mut [T] {
    fn as_mut(&mut self) -> (r: &mut [T]) {
        &mut **self
    }
}

/// A three-dimensional array: storage `hold` read through the extent `dims`.
#[derive(Clone, Debug)]
pub struct Array<D: Dims, H> {
    pub hold: H,
    pub dims: D,
}

/// An array that owns its cells.
pub type ArrayOwned<T, D> = Array<D, <D as OwnHold<T>>::OwnType>;

/// A read-only view of a region of another array.
pub type ArraySlice<'a, T> = Array<SliceDims, &'a [T]>;

/// A view of a region of another array through which its cells can be
/// changed.
pub type ArraySliceMut<'a, T> = Array<SliceDims, &'a mut [T]>;

impl<D: Dims, H: Hold> View for Array<D, H> {
    type V = Seq<H::Element>;

    /// The cells of the array in row-major order.
    open spec fn view(&self) -> Seq<H::Element> {
        Seq::new(self.layout().volume() as nat, |n: int| self.at(self.layout().nth(n)))
    }
}

impl<D: Dims, H: Hold> Array<D, H> {
    /// How the cells lie on the backing sequence.
    pub open spec fn layout(&self) -> Layout {
        self.dims.layout()
    }

    /// The backing sequence, which for a view is that of the array viewed.
    pub open spec fn backing(&self) -> Seq<H::Element> {
        self.hold.items()
    }

    /// The backing sequence is as long as the layout says.
    pub open spec fn wf(&self) -> bool {
        &&& self.layout().wf()
        &&& self.backing().len() == self.layout().len()
    }

    /// The extent along each axis.
    pub open spec fn extent(&self) -> V3<usize> {
        self.layout().dims
    }

    /// Whether `ijk` is an index of the array.
    pub open spec fn has(&self, ijk: V3<usize>) -> bool {
        self.layout().contains(ijk)
    }

    /// The cell at `ijk`.
    pub open spec fn at(&self, ijk: V3<usize>) -> H::Element {
        self.backing()[self.layout().flat(ijk)]
    }

    /// The view lists the cells by the row-major rank of their indices.
    pub proof fn lemma_view(&self)
        requires
            self.wf(),
        ensures
            self@.len() == self.layout().volume(),
            forall|ijk: V3<usize>|
                self.has(ijk) ==> 0 <= #[trigger] rank(self.extent().ints(), ijk.ints())
                    < self@.len(),
            forall|ijk: V3<usize>|
                self.has(ijk) ==> self@[#[trigger] rank(self.extent().ints(), ijk.ints())]
                    == self.at(ijk),
            forall|n: int| 0 <= n < self@.len() ==> self.has(#[trigger] self.layout().nth(n)),
            forall|n: int| 0 <= n < self@.len() ==> #[trigger] self@[n] == self.at(self.layout().nth(n)),
    {
        lemma_nth_index(self.layout());
    }

    /// The cell at `ijk`.
    pub fn get(&self, ijk: V3usize) -> (r: &H::Element)
        requires
            self.wf(),
            self.has(ijk),
        ensures
            *r == self.at(ijk),
    {
        let index = self.dims.flat_index(ijk);
        &self.hold.as_ref()[index]
    }

    /// The view of the box that starts at `offset` and has extent `dims`.
    pub fn slice(&self, offset: V3usize, dims: V3usize) -> (r: ArraySlice<'_, H::Element>)
        requires
            self.wf(),
            self.layout().admits(offset, dims),
        ensures
            r.wf(),
            r.layout() == self.layout().sub(offset, dims),
            r.backing() == self.backing(),
            r.extent() == dims,
            forall|ijk: V3<usize>|
                r.has(ijk) ==> self.has(offset.plus(ijk)) && #[trigger] r.at(ijk) == self.at(
                    offset.plus(ijk),
                ),
    {
        let dims = SliceDims {
            whole: DynamicDims(self.dims.whole()),
            offset: self.dims.offset() + offset,
            dims,
        };
        Array { dims, hold: self.hold.as_ref() }
    }

    /// The view of the whole array.
    pub fn whole_slice(&self) -> (r: ArraySlice<'_, H::Element>)
        requires
            self.wf(),
        ensures
            r.wf(),
            r.layout() == self.layout().sub(V3 { x: 0, y: 0, z: 0 }, self.extent()),
            r.backing() == self.backing(),
            r@ == self@,
    {
        let r = self.slice(V3::<usize>::zeros(), self.dims());
        proof {
            assert forall|n: int| 0 <= n < self.layout().volume() implies r.at(r.layout().nth(n))
                == self.at(self.layout().nth(n)) by {
                lemma_nth_index(r.layout());
            }
        }
        r
    }
}

impl<D: Dims, H> Array<D, H> {
    /// The extent along each axis.
    pub fn dims(&self) -> (r: V3usize)
        ensures
            r == self.dims.layout().dims,
    {
        self.dims.dims()
    }

    /// The number of cells.
    pub fn volume(&self) -> (r: usize)
        requires
            self.dims.layout().wf(),
        ensures
            r == self.dims.layout().volume(),
    {
        self.dims.volume()
    }

    /// A walk through the indices of the array in row-major order.
    pub fn indices(&self) -> (r: SpaceIter<usize>)
        ensures
            r.orig() == (V3 { x: 0int, y: 0int, z: 0int }),
            r.ends() == self.dims.layout().dims.ints(),
            r.position() == 0,
    {
        SpaceIter::new(V3::<usize>::zeros(), self.dims())
    }
}

/// What a walk through the indices of a box of extent `dims` gives at
/// step `n`.
proof fn lemma_walk_step(l: Layout, it: SpaceIter<usize>, n: int, p: V3<usize>)
    requires
        l.wf(),
        it.orig() == (V3 { x: 0int, y: 0int, z: 0int }),
        it.ends() == l.dims.ints(),
        0 <= n < crate::math::iter::box_points(it.orig(), it.ends()).len(),
        ints3(p) == crate::math::iter::box_points(it.orig(), it.ends())[n],
    ensures
        n < l.volume(),
        p == l.nth(n),
        l.contains(p),
{
    lemma_nth_index(l);
    assert(l.nth(n).ints() == unrank(l.dims.ints(), n)) by {
        lemma_rank_of_unrank(l.dims.ints(), n);
    }
}

/// The number of steps of a walk through the indices of a box of extent
/// `dims`.
proof fn lemma_walk_len(l: Layout, it: SpaceIter<usize>)
    requires
        it.orig() == (V3 { x: 0int, y: 0int, z: 0int }),
        it.ends() == l.dims.ints(),
    ensures
        crate::math::iter::box_points(it.orig(), it.ends()).len() == l.volume(),
{
}

/// The cells of a box of extent `dims` in row-major order, each made by one
/// call of `func` on its index.
fn build<T, F: FnMut(V3usize) -> T>(dims: V3usize, mut func: F) -> (r: Vec<T>)
    requires
        cells(dims.ints()) <= usize::MAX,
        forall|ijk: V3<usize>| inside(dims.ints(), ijk.ints()) ==> #[trigger] call_requires(func, (ijk,)),
    ensures
        r@.len() == cells(dims.ints()),
        forall|n: int|
            0 <= n < r@.len() ==> call_ensures(func, (Layout::plain(dims).nth(n),), #[trigger] r@[n]),
{
    let ghost l = Layout::plain(dims);
    let ghost func0 = func;
    let mut hold: Vec<T> = Vec::new();
    let mut it = SpaceIter::new(V3::<usize>::zeros(), dims);
    proof {
        lemma_walk_len(l, it);
    }
    loop
        invariant
            l == Layout::plain(dims),
            l.wf(),
            it.orig() == (V3 { x: 0int, y: 0int, z: 0int }),
            it.ends() == dims.ints(),
            crate::math::iter::box_points(it.orig(), it.ends()).len() == l.volume(),
            hold@.len() == it.position(),
            0 <= it.position() <= l.volume(),
            forall|ijk: V3<usize>| inside(dims.ints(), ijk.ints()) ==> #[trigger] call_requires(func, (ijk,)),
            forall|n: int|
                0 <= n < hold@.len() ==> call_ensures(func0, (l.nth(n),), #[trigger] hold@[n]),
            func == func0,
        ensures
            hold@.len() == l.volume(),
            forall|n: int|
                0 <= n < hold@.len() ==> call_ensures(func0, (l.nth(n),), #[trigger] hold@[n]),
        decreases l.volume() - it.position(),
    {
        let ghost n = it.position();
        match it.next() {
            Some(ijk) => {
                proof {
                    lemma_walk_step(l, it, n, ijk);
                }
                let cell = func(ijk);
                hold.push(cell);
            },
            None => {
                break ;
            },
        }
    }
    hold
}

impl<T> Array<DynamicDims, Vec<T>> {
    /// A new array of extent `dims` whose cell at each index is what `func`
    /// gives for that index.
    pub fn generate_with_dims(dims: V3usize, func: impl FnMut(V3usize) -> T) -> (r: Self)
        requires
            cells(dims.ints()) <= usize::MAX,
            forall|ijk: V3<usize>| inside(dims.ints(), ijk.ints()) ==> #[trigger] call_requires(func, (ijk,)),
        ensures
            r.wf(),
            r.layout() == Layout::plain(dims),
            forall|ijk: V3<usize>| r.has(ijk) ==> call_ensures(func, (ijk,), #[trigger] r.at(ijk)),
    {
        let hold = build(dims, func);
        let r = Array { hold, dims: DynamicDims(dims) };
        proof {
            r.lemma_plain();
            r.lemma_view();
            lemma_nth_index(r.layout());
            assert forall|ijk: V3<usize>| r.has(ijk) implies call_ensures(
                func,
                (ijk,),
                #[trigger] r.at(ijk),
            ) by {
                assert(r.layout().nth(rank(r.extent().ints(), ijk.ints())) == ijk);
            }
        }
        r
    }

    /// A new array of extent `dims` whose cells, in row-major order, are
    /// `elements`.
    pub fn new_with_dims(dims: V3usize, elements: Vec<T>) -> (r: Self)
        requires
            elements@.len() == cells(dims.ints()),
        ensures
            r.wf(),
            r.layout() == Layout::plain(dims),
            r@ == elements@,
    {
        let r = Array { hold: elements, dims: DynamicDims(dims) };
        proof {
            r.lemma_plain();
        }
        r
    }
}

impl<D: StaticDims, T> Array<D, Vec<T>> {
    /// A new array whose cell at each index is what `func` gives for that
    /// index.
    pub fn generate(func: impl FnMut(V3usize) -> T) -> (r: Self)
        requires
            cells((V3 { x: D::X, y: D::Y, z: D::Z }).ints()) <= usize::MAX,
            forall|ijk: V3<usize>|
                inside((V3 { x: D::X, y: D::Y, z: D::Z }).ints(), ijk.ints())
                    ==> #[trigger] call_requires(func, (ijk,)),
        ensures
            r.wf(),
            forall|ijk: V3<usize>| r.has(ijk) ==> call_ensures(func, (ijk,), #[trigger] r.at(ijk)),
    {
        let dims = D::default();
        let hold = build(dims.dims(), func);
        let r = Array { hold, dims };
        proof {
            r.lemma_plain();
            r.lemma_view();
            lemma_nth_index(r.layout());
            assert forall|ijk: V3<usize>| r.has(ijk) implies call_ensures(
                func,
                (ijk,),
                #[trigger] r.at(ijk),
            ) by {
                assert(r.layout().nth(rank(r.extent().ints(), ijk.ints())) == ijk);
            }
        }
        r
    }

    /// A new array whose cells, in row-major order, are `elements`.
    pub fn new(elements: Vec<T>) -> (r: Self)
        requires
            elements@.len() == cells((V3 { x: D::X, y: D::Y, z: D::Z }).ints()),
        ensures
            r.wf(),
            r@ == elements@,
    {
        let dims = D::default();
        let r = Array { hold: elements, dims };
        proof {
            r.lemma_plain();
        }
        r
    }
}

impl<D: StaticDims, T: Copy> Array<D, Vec<T>> {
    /// A new array whose cells all equal `with`.
    pub fn new_filled(with: T) -> (r: Self)
        requires
            cells((V3 { x: D::X, y: D::Y, z: D::Z }).ints()) <= usize::MAX,
        ensures
            r.wf(),
            r@.len() == cells((V3 { x: D::X, y: D::Y, z: D::Z }).ints()),
            forall|n: int| 0 <= n < r@.len() ==> #[trigger] r@[n] == with,
            forall|ijk: V3<usize>| r.has(ijk) ==> #[trigger] r.at(ijk) == with,
    {
        let dims = D::default();
        let volume = dims.volume();
        let mut elements: Vec<T> = Vec::new();
        let mut n: usize = 0;
        while n < volume
            invariant
                n <= volume,
                elements@.len() == n,
                forall|m: int| 0 <= m < n ==> #[trigger] elements@[m] == with,
            decreases volume - n,
        {
            elements.push(with);
            n += 1;
        }
        let r: Self = Array::new(elements);
        proof {
            r.lemma_view();
            assert forall|ijk: V3<usize>| r.has(ijk) implies #[trigger] r.at(ijk) == with by {
                assert(r@[rank(r.extent().ints(), ijk.ints())] == r.at(ijk));
            }
        }
        r
    }
}

impl<D: Dims, T> Array<D, Vec<T>> {
    /// An array that covers its whole grid shows its backing sequence as it
    /// is.
    pub proof fn lemma_plain(&self)
        requires
            self.layout() == Layout::plain(self.extent()),
            self.backing().len() == self.layout().len(),
        ensures
            self.wf(),
            self@ == self.backing(),
    {
        let l = self.layout();
        assert(self.hold.len() == self.hold@.len());
        lemma_nth_index(l);
    }
}

impl<D: Dims, H: Hold> Array<D, H> {
    /// Every index of the array with its cell, in row-major order.
    pub fn indexed_iter(&self) -> (r: Vec<(V3usize, &H::Element)>)
        requires
            self.wf(),
        ensures
            r@.len() == self@.len(),
            forall|n: int| 0 <= n < r@.len() ==> (#[trigger] r@[n]).0 == self.layout().nth(n),
            forall|n: int| 0 <= n < r@.len() ==> *(#[trigger] r@[n]).1 == self@[n],
    {
        let ghost l = self.layout();
        let mut out: Vec<(V3usize, &H::Element)> = Vec::new();
        let mut it = self.indices();
        proof {
            lemma_walk_len(l, it);
            lemma_nth_index(l);
        }
        loop
            invariant
                self.wf(),
                l == self.layout(),
                it.orig() == (V3 { x: 0int, y: 0int, z: 0int }),
                it.ends() == l.dims.ints(),
                crate::math::iter::box_points(it.orig(), it.ends()).len() == l.volume(),
                out@.len() == it.position(),
                0 <= it.position() <= l.volume(),
                forall|n: int| 0 <= n < out@.len() ==> (#[trigger] out@[n]).0 == l.nth(n),
                forall|n: int| 0 <= n < out@.len() ==> *(#[trigger] out@[n]).1 == self.at(l.nth(n)),
            ensures
                out@.len() == l.volume(),
                forall|n: int| 0 <= n < out@.len() ==> (#[trigger] out@[n]).0 == l.nth(n),
                forall|n: int| 0 <= n < out@.len() ==> *(#[trigger] out@[n]).1 == self.at(l.nth(n)),
            decreases l.volume() - it.position(),
        {
            let ghost n = it.position();
            match it.next() {
                Some(ijk) => {
                    proof {
                        lemma_walk_step(l, it, n, ijk);
                    }
                    let cell = self.get(ijk);
                    out.push((ijk, cell));
                },
                None => {
                    break ;
                },
            }
        }
        out
    }

    /// Every cell of the array, in row-major order.
    pub fn iter(&self) -> (r: Vec<&H::Element>)
        requires
            self.wf(),
        ensures
            r@.len() == self@.len(),
            forall|n: int| 0 <= n < r@.len() ==> *(#[trigger] r@[n]) == self@[n],
    {
        let ghost l = self.layout();
        let mut out: Vec<&H::Element> = Vec::new();
        let mut it = self.indices();
        proof {
            lemma_walk_len(l, it);
            lemma_nth_index(l);
        }
        loop
            invariant
                self.wf(),
                l == self.layout(),
                it.orig() == (V3 { x: 0int, y: 0int, z: 0int }),
                it.ends() == l.dims.ints(),
                crate::math::iter::box_points(it.orig(), it.ends()).len() == l.volume(),
                out@.len() == it.position(),
                0 <= it.position() <= l.volume(),
                forall|n: int| 0 <= n < out@.len() ==> *(#[trigger] out@[n]) == self.at(l.nth(n)),
            ensures
                out@.len() == l.volume(),
                forall|n: int| 0 <= n < out@.len() ==> *(#[trigger] out@[n]) == self.at(l.nth(n)),
            decreases l.volume() - it.position(),
        {
            let ghost n = it.position();
            match it.next() {
                Some(ijk) => {
                    proof {
                        lemma_walk_step(l, it, n, ijk);
                    }
                    let cell = self.get(ijk);
                    out.push(cell);
                },
                None => {
                    break ;
                },
            }
        }
        out
    }
}

/// The backing sequence `old` of an array of layout `l` after each of its
/// cells has taken the value of the cell with the same index in an array of
/// layout `sl` backed by `src`. Positions that hold no cell of the array keep
/// what they had.
pub open spec fn overwritten<T>(old: Seq<T>, l: Layout, src: Seq<T>, sl: Layout) -> Seq<T> {
    Seq::new(
        old.len(),
        |f: int|
            if l.covers(f) {
                src[sl.flat(l.index_at(f))]
            } else {
                old[f]
            },
    )
}

/// Whether `ijk` lies in the box that starts at `offset` and has extent
/// `dims`.
pub open spec fn in_box(offset: V3<usize>, dims: V3<usize>, ijk: V3<usize>) -> bool {
    &&& offset.x <= ijk.x < offset.x + dims.x
    &&& offset.y <= ijk.y < offset.y + dims.y
    &&& offset.z <= ijk.z < offset.z + dims.z
}

/// What a copy into a view does to the array viewed. After the cells of the
/// view of the box at `offset` of an array of layout `l` were overwritten
/// from an array of the same extent, the cell of the array at an index
/// inside the box has the value of the source's cell at that index less
/// `offset`, and a cell at an index outside the box has kept its value.
pub proof fn lemma_overwritten_cell<T>(
    old: Seq<T>,
    l: Layout,
    offset: V3<usize>,
    src: Seq<T>,
    sl: Layout,
    ijk: V3<usize>,
)
    requires
        l.wf(),
        sl.wf(),
        l.admits(offset, sl.dims),
        old.len() == l.len(),
        src.len() == sl.len(),
        l.contains(ijk),
    ensures
        0 <= l.flat(ijk) < old.len(),
        overwritten(old, l.sub(offset, sl.dims), src, sl)[l.flat(ijk)] == if in_box(
            offset,
            sl.dims,
            ijk,
        ) {
            src[sl.flat(ijk.minus(offset))]
        } else {
            old[l.flat(ijk)]
        },
{
    lemma_flat_index(l, ijk);
    let p = sum3(l.offset.ints(), ijk.ints());
    lemma_unrank_of_rank(l.whole.ints(), p);
}

/// Copies cell by cell between two backing sequences.
fn copy_cells<T: Copy, D: Dims, Ds: Dims>(dst: &mut [T], dd: &D, src: &[T], sd: &Ds)
    requires
        dd.layout().wf(),
        sd.layout().wf(),
        old(dst)@.len() == dd.layout().len(),
        src@.len() == sd.layout().len(),
        dd.layout().dims == sd.layout().dims,
    ensures
        final(dst)@ == overwritten(old(dst)@, dd.layout(), src@, sd.layout()),
{
    let ghost l = dd.layout();
    let ghost sl = sd.layout();
    let ghost before = dst@;
    let mut it = SpaceIter::new(V3::<usize>::zeros(), dd.dims());
    proof {
        lemma_walk_len(l, it);
        lemma_nth_index(l);
    }
    loop
        invariant
            l == dd.layout(),
            sl == sd.layout(),
            l.wf(),
            sl.wf(),
            l.dims == sl.dims,
            before.len() == l.len(),
            src@.len() == sl.len(),
            it.orig() == (V3 { x: 0int, y: 0int, z: 0int }),
            it.ends() == l.dims.ints(),
            crate::math::iter::box_points(it.orig(), it.ends()).len() == l.volume(),
            0 <= it.position() <= l.volume(),
            dst@.len() == before.len(),
            forall|f: int|
                0 <= f < before.len() ==> #[trigger] dst@[f] == if l.covers(f) && rank(
                    l.dims.ints(),
                    l.index_at(f).ints(),
                ) < it.position() {
                    src@[sl.flat(l.index_at(f))]
                } else {
                    before[f]
                },
        ensures
            dst@.len() == before.len(),
            forall|f: int|
                0 <= f < before.len() ==> #[trigger] dst@[f] == if l.covers(f) {
                    src@[sl.flat(l.index_at(f))]
                } else {
                    before[f]
                },
        decreases l.volume() - it.position(),
    {
        let ghost n = it.position();
        match it.next() {
            Some(ijk) => {
                proof {
                    lemma_walk_step(l, it, n, ijk);
                    lemma_flat_index(l, ijk);
                    lemma_flat_index(sl, ijk);
                }
                let to = dd.flat_index(ijk);
                let from = sd.flat_index(ijk);
                dst[to] = src[from];
                proof {
                    assert forall|f: int| 0 <= f < before.len() implies #[trigger] dst@[f] == if l.covers(
                        f,
                    ) && rank(l.dims.ints(), l.index_at(f).ints()) < n + 1 {
                        src@[sl.flat(l.index_at(f))]
                    } else {
                        before[f]
                    } by {
                        lemma_nth_index(l);
                        if f == to {
                        } else {
                            if l.covers(f) {
                                lemma_covered(l, f);
                            }
                        }
                    }
                }
            },
            None => {
                proof {
                    assert forall|f: int| 0 <= f < before.len() implies #[trigger] dst@[f] == if l.covers(
                        f,
                    ) {
                        src@[sl.flat(l.index_at(f))]
                    } else {
                        before[f]
                    } by {
                        if l.covers(f) {
                            lemma_covered(l, f);
                            lemma_nth_index(l);
                        }
                    }
                }
                break ;
            },
        }
    }
}

/// After a copy the cells of the target are those of the source.
proof fn lemma_overwritten_view<D: Dims, H: Hold, Ds: Dims, Hs: Hold<Element = H::Element>>(
    before: Array<D, H>,
    after: Array<D, H>,
    src: Array<Ds, Hs>,
)
    requires
        before.wf(),
        src.wf(),
        before.extent() == src.extent(),
        after.layout() == before.layout(),
        after.backing() == overwritten(
            before.backing(),
            before.layout(),
            src.backing(),
            src.layout(),
        ),
    ensures
        after.wf(),
        after@ == src@,
{
    let l = before.layout();
    lemma_nth_index(l);
    lemma_nth_index(src.layout());
    assert forall|n: int| 0 <= n < l.volume() implies after.at(l.nth(n)) == src.at(
        src.layout().nth(n),
    ) by {
        lemma_flat_index(l, l.nth(n));
    }
}

impl<D: Dims, T> Array<D, Vec<T>> {
    /// The cell at `ijk`, to be changed in place.
    pub fn get_mut(&mut self, ijk: V3usize) -> (r: &mut T)
        requires
            old(self).wf(),
            old(self).has(ijk),
        ensures
            *r == old(self).at(ijk),
            final(self).layout() == old(self).layout(),
            final(self).backing() == old(self).backing().update(
                old(self).layout().flat(ijk),
                *final(r),
            ),
            final(self).wf(),
            final(self).at(ijk) == *final(r),
    {
        let index = self.dims.flat_index(ijk);
        &mut self.hold[index]
    }

    /// The view of the box that starts at `offset` and has extent `dims`,
    /// through which the cells of that box can be changed.
    pub fn slice_mut(&mut self, offset: V3usize, dims: V3usize) -> (r: ArraySliceMut<'_, T>)
        requires
            old(self).wf(),
            old(self).layout().admits(offset, dims),
        ensures
            r.wf(),
            r.layout() == old(self).layout().sub(offset, dims),
            r.backing() == old(self).backing(),
            r.extent() == dims,
            final(self).layout() == old(self).layout(),
            final(self).backing() == final(r.hold)@,
    {
        let dims = SliceDims {
            whole: DynamicDims(self.dims.whole()),
            offset: self.dims.offset() + offset,
            dims,
        };
        Array { dims, hold: self.hold.as_mut_slice() }
    }
}

impl<D: Dims, T: Copy> Array<D, Vec<T>> {
    /// Gives every cell the value of the cell of `src` with the same index.
    pub fn copy_from<Ds: Dims, Hs: Hold<Element = T>>(&mut self, src: &Array<Ds, Hs>)
        requires
            old(self).wf(),
            src.wf(),
            old(self).extent() == src.extent(),
        ensures
            final(self).wf(),
            final(self).layout() == old(self).layout(),
            final(self)@ == src@,
            final(self).backing() == overwritten(
                old(self).backing(),
                old(self).layout(),
                src.backing(),
                src.layout(),
            ),
    {
        copy_cells(self.hold.as_mut_slice(), &self.dims, src.hold.as_ref(), &src.dims);
        proof {
            lemma_overwritten_view(*old(self), *self, *src);
        }
    }
}

impl<'a, T> Array<SliceDims, &'a mut [T]> {
    /// The cell at `ijk`, to be changed in place.
    pub fn get_mut(&mut self, ijk: V3usize) -> (r: &mut T)
        requires
            old(self).wf(),
            old(self).has(ijk),
        ensures
            *r == old(self).at(ijk),
            final(self).layout() == old(self).layout(),
            final(self).backing() == old(self).backing().update(
                old(self).layout().flat(ijk),
                *final(r),
            ),
            final(self).wf(),
            final(self).at(ijk) == *final(r),
            final(final(self).hold)@ == final(old(self).hold)@,
    {
        let index = self.dims.flat_index(ijk);
        &mut self.hold[index]
    }
}

impl<'a, T: Copy> Array<SliceDims, &'a mut [T]> {
    /// Gives every cell of the view the value of the cell of `src` with the
    /// same index. The cells of the viewed array outside the view keep their
    /// values.
    pub fn copy_from<Ds: Dims, Hs: Hold<Element = T>>(&mut self, src: &Array<Ds, Hs>)
        requires
            old(self).wf(),
            src.wf(),
            old(self).extent() == src.extent(),
        ensures
            final(self).wf(),
            final(self).layout() == old(self).layout(),
            final(self)@ == src@,
            final(self).backing() == overwritten(
                old(self).backing(),
                old(self).layout(),
                src.backing(),
                src.layout(),
            ),
            final(final(self).hold)@ == final(old(self).hold)@,
    {
        copy_cells(&mut *self.hold, &self.dims, src.hold.as_ref(), &src.dims);
        proof {
            lemma_overwritten_view(*old(self), *self, *src);
        }
    }
}

/// Hands out the cells that an array has on `slice`, each with its index, in
/// row-major order. The references are to distinct places of the slice.
fn cells_mut<'a, T, D: Dims>(slice: &'a mut [T], dims: &D) -> (out: Vec<(V3usize, &'a mut T)>)
    requires
        dims.layout().wf(),
        old(slice)@.len() == dims.layout().len(),
    ensures
        out@.len() == dims.layout().volume(),
        forall|n: int|
            0 <= n < out@.len() ==> (#[trigger] out@[n]).0 == dims.layout().nth(n) && *out@[n].1
                == old(slice)@[dims.layout().flat(dims.layout().nth(n))],
        final(slice)@.len() == old(slice)@.len(),
        forall|n: int|
            0 <= n < out@.len() ==> final(slice)@[dims.layout().flat(dims.layout().nth(n))]
                == *final((#[trigger] out@[n]).1),
        forall|f: int|
            0 <= f < old(slice)@.len() && !dims.layout().covers(f) ==> #[trigger] final(slice)@[f]
                == old(slice)@[f],
{
    let ghost l = dims.layout();
    let ghost all = slice@;
    let ghost fin = final(slice)@;
    let mut out: Vec<(V3usize, &'a mut T)> = Vec::new();
    let mut rest: &'a mut [T] = slice;
    let mut cursor: usize = 0;
    let mut it = SpaceIter::new(V3::<usize>::zeros(), dims.dims());
    proof {
        lemma_walk_len(l, it);
        lemma_nth_index(l);
    }
    loop
        invariant
            l == dims.layout(),
            l.wf(),
            all.len() == l.len(),
            it.orig() == (V3 { x: 0int, y: 0int, z: 0int }),
            it.ends() == l.dims.ints(),
            crate::math::iter::box_points(it.orig(), it.ends()).len() == l.volume(),
            0 <= it.position() <= l.volume(),
            out@.len() == it.position(),
            cursor + rest@.len() == all.len(),
            rest@ == all.skip(cursor as int),
            fin.len() == cursor + final(rest)@.len(),
            fin.skip(cursor as int) == final(rest)@,
            it.position() == 0 ==> cursor == 0,
            it.position() > 0 ==> cursor == l.flat(l.nth(it.position() - 1)) + 1,
            forall|n: int|
                0 <= n < out@.len() ==> (#[trigger] out@[n]).0 == l.nth(n) && *out@[n].1
                    == all[l.flat(l.nth(n))],
            forall|n: int|
                0 <= n < out@.len() ==> fin[l.flat(l.nth(n))] == *final((#[trigger] out@[n]).1),
            forall|f: int| 0 <= f < cursor && !l.covers(f) ==> #[trigger] fin[f] == all[f],
        ensures
            out@.len() == l.volume(),
            fin.len() == all.len(),
            forall|n: int|
                0 <= n < out@.len() ==> (#[trigger] out@[n]).0 == l.nth(n) && *out@[n].1
                    == all[l.flat(l.nth(n))],
            forall|n: int|
                0 <= n < out@.len() ==> fin[l.flat(l.nth(n))] == *final((#[trigger] out@[n]).1),
            forall|f: int| 0 <= f < all.len() && !l.covers(f) ==> #[trigger] fin[f] == all[f],
        decreases l.volume() - it.position(),
    {
        let ghost n = it.position();
        match it.next() {
            Some(ijk) => {
                proof {
                    lemma_walk_step(l, it, n, ijk);
                    lemma_flat_index(l, ijk);
                    if n > 0 {
                        lemma_flat_monotone(l, n - 1, n);
                    }
                }
                let index = dims.flat_index(ijk);
                let (skipped, tail) = rest.split_at_mut(index - cursor);
                let ghost gap = final(skipped)@;
                let (head, after) = tail.split_at_mut(1);
                let elem = &mut head[0];
                proof {
                    assert(gap == all.subrange(cursor as int, index as int)) by {
                        assert(all.skip(cursor as int).subrange(0, index - cursor) =~= all.subrange(
                            cursor as int,
                            index as int,
                        ));
                    }
                    assert(fin.skip(index + 1) =~= final(after)@) by {
                        assert(fin.skip(cursor as int).skip(index - cursor + 1) =~= fin.skip(
                            index + 1,
                        ));
                    }
                    assert(fin[index as int] == *final(elem)) by {
                        assert(fin[index as int] == fin.skip(cursor as int)[index - cursor]);
                    }
                    assert(after@ =~= all.skip(index + 1)) by {
                        assert(all.skip(cursor as int).subrange(
                            index - cursor,
                            all.len() - cursor,
                        ).subrange(1, all.len() - index) =~= all.skip(index + 1));
                    }
                    assert(*elem == all[index as int]) by {
                        assert(all.skip(cursor as int).subrange(
                            index - cursor,
                            all.len() - cursor,
                        ).subrange(0, 1)[0] == all[index as int]);
                    }
                    assert forall|f: int| 0 <= f < index + 1 && !l.covers(f) implies #[trigger] fin[f]
                        == all[f] by {
                        if f >= cursor {
                            assert(fin[f] == fin.skip(cursor as int)[f - cursor]);
                        }
                    }
                }
                out.push((ijk, elem));
                rest = after;
                cursor = index + 1;
            },
            None => {
                proof {
                    assert forall|f: int| 0 <= f < all.len() && !l.covers(f) implies #[trigger] fin[f]
                        == all[f] by {
                        if f >= cursor {
                            assert(fin[f] == fin.skip(cursor as int)[f - cursor]);
                        }
                    }
                }
                break ;
            },
        }
    }
    out
}

impl<D: Dims, T> Array<D, Vec<T>> {
    /// Every index of the array with its cell, in row-major order, each cell
    /// to be changed in place. The cells handed out are distinct: what is
    /// written through one shows in that cell of the array and in no other.
    pub fn indexed_iter_mut(&mut self) -> (r: Vec<(V3usize, &mut T)>)
        requires
            old(self).wf(),
        ensures
            r@.len() == old(self)@.len(),
            forall|n: int|
                0 <= n < r@.len() ==> (#[trigger] r@[n]).0 == old(self).layout().nth(n) && *r@[n].1
                    == old(self)@[n],
            final(self).layout() == old(self).layout(),
            final(self).backing().len() == old(self).backing().len(),
            forall|n: int|
                0 <= n < r@.len() ==> final(self).at(old(self).layout().nth(n))
                    == *final((#[trigger] r@[n]).1),
            forall|f: int|
                0 <= f < old(self).backing().len() && !old(self).layout().covers(f)
                    ==> #[trigger] final(self).backing()[f] == old(self).backing()[f],
    {
        proof {
            lemma_nth_index(self.layout());
        }
        cells_mut(self.hold.as_mut_slice(), &self.dims)
    }

    /// Every cell of the array, in row-major order, to be changed in place.
    pub fn iter_mut(&mut self) -> (r: Vec<&mut T>)
        requires
            old(self).wf(),
        ensures
            r@.len() == old(self)@.len(),
            forall|n: int| 0 <= n < r@.len() ==> *(#[trigger] r@[n]) == old(self)@[n],
            final(self).layout() == old(self).layout(),
            final(self).backing().len() == old(self).backing().len(),
            forall|n: int|
                0 <= n < r@.len() ==> final(self).at(old(self).layout().nth(n))
                    == *final(#[trigger] r@[n]),
            forall|f: int|
                0 <= f < old(self).backing().len() && !old(self).layout().covers(f)
                    ==> #[trigger] final(self).backing()[f] == old(self).backing()[f],
    {
        strip(self.indexed_iter_mut())
    }
}

/// The cells of `pairs` without their indices, in the same order.
fn strip<'a, T>(pairs: Vec<(V3usize, &'a mut T)>) -> (out: Vec<&'a mut T>)
    ensures
        out@.len() == pairs@.len(),
        forall|i: int| 0 <= i < out@.len() ==> *(#[trigger] out@[i]) == *pairs@[i].1,
        forall|i: int| 0 <= i < out@.len() ==> *final(#[trigger] out@[i]) == *final(pairs@[i].1),
{
    let mut pairs = pairs;
    let ghost all = pairs@;
    let mut back: Vec<&'a mut T> = Vec::new();
    while pairs.len() > 0
        invariant
            pairs@ == all.take(pairs@.len() as int),
            pairs@.len() <= all.len(),
            back@.len() == all.len() - pairs@.len(),
            forall|i: int|
                0 <= i < back@.len() ==> *(#[trigger] back@[i]) == *all[all.len() - 1 - i].1,
            forall|i: int|
                0 <= i < back@.len() ==> *final(#[trigger] back@[i]) == *final(all[all.len() - 1 - i].1),
        decreases pairs@.len(),
    {
        match pairs.pop() {
            Some(pair) => {
                back.push(pair.1);
            },
            None => {
                assert(false);
            },
        }
    }
    let mut out: Vec<&'a mut T> = Vec::new();
    while back.len() > 0
        invariant
            back@.len() <= all.len(),
            out@.len() == all.len() - back@.len(),
            forall|i: int|
                0 <= i < back@.len() ==> *(#[trigger] back@[i]) == *all[all.len() - 1 - i].1,
            forall|i: int|
                0 <= i < back@.len() ==> *final(#[trigger] back@[i]) == *final(all[all.len() - 1 - i].1),
            forall|i: int| 0 <= i < out@.len() ==> *(#[trigger] out@[i]) == *all[i].1,
            forall|i: int| 0 <= i < out@.len() ==> *final(#[trigger] out@[i]) == *final(all[i].1),
        decreases back@.len(),
    {
        match back.pop() {
            Some(cell) => {
                out.push(cell);
            },
            None => {
                assert(false);
            },
        }
    }
    out
}

impl<'a, T> Array<SliceDims, &'a mut [T]> {
    /// Every index of the view with its cell, in row-major order, each cell
    /// to be changed in place. The cells handed out are distinct: what is
    /// written through one shows in that cell of the array viewed and in no
    /// other.
    pub fn indexed_iter_mut(&mut self) -> (r: Vec<(V3usize, &mut T)>)
        requires
            old(self).wf(),
        ensures
            r@.len() == old(self)@.len(),
            forall|n: int|
                0 <= n < r@.len() ==> (#[trigger] r@[n]).0 == old(self).layout().nth(n) && *r@[n].1
                    == old(self)@[n],
            final(self).layout() == old(self).layout(),
            final(self).backing().len() == old(self).backing().len(),
            forall|n: int|
                0 <= n < r@.len() ==> final(self).at(old(self).layout().nth(n))
                    == *final((#[trigger] r@[n]).1),
            forall|f: int|
                0 <= f < old(self).backing().len() && !old(self).layout().covers(f)
                    ==> #[trigger] final(self).backing()[f] == old(self).backing()[f],
            final(final(self).hold)@ == final(old(self).hold)@,
    {
        proof {
            lemma_nth_index(self.layout());
        }
        cells_mut(&mut *self.hold, &self.dims)
    }

    /// Every cell of the view, in row-major order, to be changed in place.
    pub fn iter_mut(&mut self) -> (r: Vec<&mut T>)
        requires
            old(self).wf(),
        ensures
            r@.len() == old(self)@.len(),
            forall|n: int| 0 <= n < r@.len() ==> *(#[trigger] r@[n]) == old(self)@[n],
            final(self).layout() == old(self).layout(),
            final(self).backing().len() == old(self).backing().len(),
            forall|n: int|
                0 <= n < r@.len() ==> final(self).at(old(self).layout().nth(n))
                    == *final(#[trigger] r@[n]),
            forall|f: int|
                0 <= f < old(self).backing().len() && !old(self).layout().covers(f)
                    ==> #[trigger] final(self).backing()[f] == old(self).backing()[f],
            final(final(self).hold)@ == final(old(self).hold)@,
    {
        strip(self.indexed_iter_mut())
    }
}

impl<D: Dims, T: PartialEq> PartialEq for Array<D, Vec<T>> {
    /// Whether the two arrays have the same extent and equal cells.
    fn eq(&self, rhs: &Self) -> (r: bool) {
        self.dims.dims() == rhs.dims.dims() && self.hold == rhs.hold
    }
}

impl<D: Dims, T: PartialEq> PartialEqSpecImpl for Array<D, Vec<T>> {
    open spec fn obeys_eq_spec() -> bool {
        T::obeys_eq_spec()
    }

    open spec fn eq_spec(&self, rhs: &Self) -> bool {
        self.dims.layout().dims == rhs.dims.layout().dims && PartialEqSpec::eq_spec(
            &self.hold,
            &rhs.hold,
        )
    }
}

} // verus!
