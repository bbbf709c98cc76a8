//! Row-major enumeration of the points of a three-dimensional box.

use vstd::prelude::*;
use vstd::arithmetic::div_mod::{
    lemma_fundamental_div_mod,
    lemma_fundamental_div_mod_converse,
    lemma_mod_bound,
};
use crate::math::{Scalar, V3};

verus! {

/// The origin of the integer grid.
pub open spec fn p0() -> V3<int> {
    V3 { x: 0, y: 0, z: 0 }
}

/// Whether `p` lies in the box `[0, w)`.
pub open spec fn inside(w: V3<int>, p: V3<int>) -> bool {
    &&& 0 <= p.x < w.x
    &&& 0 <= p.y < w.y
    &&& 0 <= p.z < w.z
}

/// The number of points in the box `[0, w)`; zero as soon as one side is empty.
pub open spec fn cells(w: V3<int>) -> int {
    if w.x <= 0 || w.y <= 0 || w.z <= 0 {
        0
    } else {
        w.x * (w.y * w.z)
    }
}

/// The row-major rank of `p` in the box `[0, w)`: x varies slowest, z fastest.
pub open spec fn rank(w: V3<int>, p: V3<int>) -> int {
    p.x * (w.y * w.z) + p.y * w.z + p.z
}

/// The point of the box `[0, w)` whose row-major rank is `n`.
pub open spec fn unrank(w: V3<int>, n: int) -> V3<int> {
    let row = n % (w.y * w.z);
    V3 { x: n / (w.y * w.z), y: row / w.z, z: row % w.z }
}

/// Every point of the box, each once, by increasing rank.
pub open spec fn points(w: V3<int>) -> Seq<V3<int>> {
    Seq::new(cells(w) as nat, |n: int| unrank(w, n))
}

proof fn lemma_plane_positive(y: int, z: int)
    by (nonlinear_arith)
    requires
        0 < y,
        0 < z,
    ensures
        0 < y * z,
        z <= y * z,
{
}

proof fn lemma_rank_parts(w: V3<int>, p: V3<int>)
    by (nonlinear_arith)
    requires
        inside(w, p),
    ensures
        0 <= p.y * w.z + p.z < w.y * w.z,
        0 <= p.x * (w.y * w.z),
        p.x * (w.y * w.z) + w.y * w.z <= w.x * (w.y * w.z),
{
}

/// A point inside the box has a rank below the number of its points.
pub proof fn lemma_rank_bounds(w: V3<int>, p: V3<int>)
    requires
        inside(w, p),
    ensures
        0 <= rank(w, p) < cells(w),
{
    lemma_rank_parts(w, p);
}

/// Taking the point of a rank and ranking it again gives the rank back,
/// and the point lies inside the box.
pub proof fn lemma_rank_of_unrank(w: V3<int>, n: int)
    requires
        0 <= n < cells(w),
    ensures
        inside(w, unrank(w, n)),
        rank(w, unrank(w, n)) == n,
{
    let plane = w.y * w.z;
    lemma_plane_positive(w.y, w.z);
    let row = n % plane;
    lemma_fundamental_div_mod(n, plane);
    lemma_mod_bound(n, plane);
    lemma_fundamental_div_mod(row, w.z);
    lemma_mod_bound(row, w.z);
    let x = n / plane;
    let y = row / w.z;
    assert(0 <= x < w.x) by (nonlinear_arith)
        requires
            0 <= n < w.x * plane,
            0 < plane,
            n == plane * x + row,
            0 <= row < plane,
    ;
    assert(0 <= y < w.y) by (nonlinear_arith)
        requires
            0 <= row < w.y * w.z,
            0 < w.z,
            row == w.z * y + row % w.z,
            0 <= row % w.z < w.z,
    ;
}

/// Ranking a point of the box and taking the point of that rank gives the
/// point back.
pub proof fn lemma_unrank_of_rank(w: V3<int>, p: V3<int>)
    requires
        inside(w, p),
    ensures
        unrank(w, rank(w, p)) == p,
{
    let plane = w.y * w.z;
    lemma_plane_positive(w.y, w.z);
    lemma_rank_parts(w, p);
    let row = p.y * w.z + p.z;
    assert(rank(w, p) == plane * p.x + row) by (nonlinear_arith)
        requires
            rank(w, p) == p.x * plane + row,
    ;
    lemma_fundamental_div_mod_converse(rank(w, p), plane, p.x, row);
    assert(row == w.z * p.y + p.z) by (nonlinear_arith)
        requires
            row == p.y * w.z + p.z,
    ;
    lemma_fundamental_div_mod_converse(row, w.z, p.y, p.z);
}

/// Two points of the box with the same rank are the same point.
pub proof fn lemma_rank_unique(w: V3<int>, p: V3<int>, q: V3<int>)
    requires
        inside(w, p),
        inside(w, q),
        rank(w, p) == rank(w, q),
    ensures
        p == q,
{
    lemma_unrank_of_rank(w, p);
    lemma_unrank_of_rank(w, q);
}

/// The enumeration of a box holds exactly the points inside it, each at the
/// position given by its rank: none is missing, none comes twice, and they
/// come x slowest, z fastest.
pub proof fn lemma_points_complete(w: V3<int>)
    ensures
        points(w).len() == cells(w),
        forall|n: int| 0 <= n < cells(w) ==> inside(w, #[trigger] points(w)[n]),
        forall|n: int| 0 <= n < cells(w) ==> rank(w, #[trigger] points(w)[n]) == n,
        forall|p: V3<int>| inside(w, p) ==> 0 <= #[trigger] rank(w, p) < cells(w),
        forall|p: V3<int>| inside(w, p) ==> points(w)[#[trigger] rank(w, p)] == p,
        forall|m: int, n: int|
            0 <= m < cells(w) && 0 <= n < cells(w) && m != n ==> #[trigger] points(w)[m]
                != #[trigger] points(w)[n],
{
    assert forall|n: int| 0 <= n < cells(w) implies inside(w, #[trigger] points(w)[n]) && rank(
        w,
        points(w)[n],
    ) == n by {
        lemma_rank_of_unrank(w, n);
    }
    assert forall|p: V3<int>| inside(w, p) implies 0 <= #[trigger] rank(w, p) < cells(w)
        && points(w)[rank(w, p)] == p by {
        lemma_rank_bounds(w, p);
        lemma_unrank_of_rank(w, p);
    }
}

/// Stepping to the next rank moves z on by one, or wraps z and moves y on by
/// one, or wraps both and moves x on by one.
pub proof fn lemma_unrank_step(w: V3<int>, n: int)
    requires
        0 <= n,
        n + 1 < cells(w),
    ensures
        ({
            let p = unrank(w, n);
            unrank(w, n + 1) == if p.z + 1 < w.z {
                V3 { x: p.x, y: p.y, z: p.z + 1 }
            } else if p.y + 1 < w.y {
                V3 { x: p.x, y: p.y + 1, z: 0 }
            } else {
                V3 { x: p.x + 1, y: 0, z: 0 }
            }
        }),
{
    let p = unrank(w, n);
    lemma_rank_of_unrank(w, n);
    let q = if p.z + 1 < w.z {
        V3 { x: p.x, y: p.y, z: p.z + 1 }
    } else if p.y + 1 < w.y {
        V3 { x: p.x, y: p.y + 1, z: 0 }
    } else {
        V3 { x: p.x + 1, y: 0, z: 0 }
    };
    assert(rank(w, q) == n + 1) by (nonlinear_arith)
        requires
            rank(w, p) == n,
            rank(w, p) == p.x * (w.y * w.z) + p.y * w.z + p.z,
            rank(w, q) == q.x * (w.y * w.z) + q.y * w.z + q.z,
            inside(w, p),
            q == if p.z + 1 < w.z {
                V3 { x: p.x, y: p.y, z: p.z + 1 }
            } else if p.y + 1 < w.y {
                V3 { x: p.x, y: p.y + 1, z: 0 }
            } else {
                V3 { x: p.x + 1, y: 0, z: 0 }
            },
    ;
    assert(q.x < w.x) by (nonlinear_arith)
        requires
            rank(w, q) == n + 1,
            n + 1 < w.x * (w.y * w.z),
            rank(w, q) == q.x * (w.y * w.z) + q.y * w.z + q.z,
            0 <= q.y,
            0 <= q.z,
            0 < w.z,
            0 < w.y,
    ;
    lemma_unrank_of_rank(w, q);
}

/// Whether `p` comes before `q` where x counts first, then y, then z.
pub open spec fn lex_less(p: V3<int>, q: V3<int>) -> bool {
    p.x < q.x || (p.x == q.x && (p.y < q.y || (p.y == q.y && p.z < q.z)))
}

/// Of two points of a box, the one that comes first has the lower rank.
pub proof fn lemma_rank_lex(w: V3<int>, p: V3<int>, q: V3<int>)
    requires
        inside(w, p),
        inside(w, q),
        lex_less(p, q),
    ensures
        rank(w, p) < rank(w, q),
{
    lemma_rank_parts(w, p);
    lemma_rank_parts(w, q);
    if p.x < q.x {
        assert(p.x * (w.y * w.z) + w.y * w.z <= q.x * (w.y * w.z)) by (nonlinear_arith)
            requires
                p.x + 1 <= q.x,
                0 <= w.y * w.z,
        ;
    } else if p.y < q.y {
        assert(p.y * w.z + w.z <= q.y * w.z) by (nonlinear_arith)
            requires
                p.y + 1 <= q.y,
                0 <= w.z,
        ;
    }
}

/// The enumeration of a box goes on in order: of two ranks, the point of the
/// lower comes first.
pub proof fn lemma_unrank_monotone(w: V3<int>, m: int, n: int)
    requires
        0 <= m < n < cells(w),
    ensures
        lex_less(unrank(w, m), unrank(w, n)),
{
    let p = unrank(w, m);
    let q = unrank(w, n);
    lemma_rank_of_unrank(w, m);
    lemma_rank_of_unrank(w, n);
    if !lex_less(p, q) {
        if p != q {
            lemma_rank_lex(w, q, p);
        }
    }
}

/// An integer type that can serve as a coordinate of a box to walk through.
pub trait Indexish: Scalar {
    /// The value as a mathematical integer.
    spec fn as_int(self) -> int;

    /// The largest value of the type.
    spec fn limit() -> int;

    /// No value exceeds the limit, and distinct values are distinct integers.
    proof fn lemma_as_int(a: Self, b: Self)
        ensures
            a.as_int() <= Self::limit(),
            a.as_int() == b.as_int() ==> a == b,
    ;

    /// Moves on to the next integer.
    fn increment(&mut self)
        requires
            old(self).as_int() < Self::limit(),
        ensures
            final(self).as_int() == old(self).as_int() + 1,
    ;

    /// Whether `self` comes before `other`.
    fn precedes(&self, other: &Self) -> (r: bool)
        ensures
            r == (self.as_int() < other.as_int()),
    ;

    /// Whether `self` and `other` are the same integer.
    fn same(&self, other: &Self) -> (r: bool)
        ensures
            r == (self.as_int() == other.as_int()),
    ;
}

impl Indexish for u8 {
    open spec fn as_int(self) -> int {
        self as int
    }

    open spec fn limit() -> int {
        u8::MAX as int
    }

    proof fn lemma_as_int(a: Self, b: Self) {
    }

    fn increment(&mut self) {
        *self += 1;
    }

    fn precedes(&self, other: &Self) -> (r: bool) {
        *self < *other
    }

    fn same(&self, other: &Self) -> (r: bool) {
        *self == *other
    }
}

impl Indexish for i32 {
    open spec fn as_int(self) -> int {
        self as int
    }

    open spec fn limit() -> int {
        i32::MAX as int
    }

    proof fn lemma_as_int(a: Self, b: Self) {
    }

    fn increment(&mut self) {
        *self += 1;
    }

    fn precedes(&self, other: &Self) -> (r: bool) {
        *self < *other
    }

    fn same(&self, other: &Self) -> (r: bool) {
        *self == *other
    }
}

impl Indexish for usize {
    open spec fn as_int(self) -> int {
        self as int
    }

    open spec fn limit() -> int {
        usize::MAX as int
    }

    proof fn lemma_as_int(a: Self, b: Self) {
    }

    fn increment(&mut self) {
        *self += 1;
    }

    fn precedes(&self, other: &Self) -> (r: bool) {
        *self < *other
    }

    fn same(&self, other: &Self) -> (r: bool) {
        *self == *other
    }
}

/// The components of `v` as mathematical integers.
pub open spec fn ints3<T: Indexish>(v: V3<T>) -> V3<int> {
    V3 { x: v.x.as_int(), y: v.y.as_int(), z: v.z.as_int() }
}

/// The side lengths of the box `[orig, ends)`.
pub open spec fn widths(orig: V3<int>, ends: V3<int>) -> V3<int> {
    V3 { x: ends.x - orig.x, y: ends.y - orig.y, z: ends.z - orig.z }
}

/// The points of the box `[orig, ends)` by increasing row-major rank. The
/// box is empty as soon as one of its sides is.
pub open spec fn box_points(orig: V3<int>, ends: V3<int>) -> Seq<V3<int>> {
    Seq::new(
        cells(widths(orig, ends)) as nat,
        |n: int|
            {
                let p = unrank(widths(orig, ends), n);
                V3 { x: orig.x + p.x, y: orig.y + p.y, z: orig.z + p.z }
            },
    )
}

/// Whether `p` lies in the box `[orig, ends)`.
pub open spec fn within(orig: V3<int>, ends: V3<int>, p: V3<int>) -> bool {
    &&& orig.x <= p.x < ends.x
    &&& orig.y <= p.y < ends.y
    &&& orig.z <= p.z < ends.z
}

/// The points of a box come once each and in order: each entry of
/// `box_points` lies in the box; each point of the box is the entry at its
/// rank, counted from the first corner; and of two entries the earlier
/// comes first where x counts first, then y, then z.
pub proof fn lemma_box_points(orig: V3<int>, ends: V3<int>)
    ensures
        box_points(orig, ends).len() == cells(widths(orig, ends)),
        forall|n: int|
            0 <= n < box_points(orig, ends).len() ==> within(
                orig,
                ends,
                #[trigger] box_points(orig, ends)[n],
            ),
        forall|p: V3<int>|
            within(orig, ends, p) ==> 0 <= #[trigger] rank(
                widths(orig, ends),
                widths(orig, p),
            ) < box_points(orig, ends).len() && box_points(orig, ends)[rank(
                widths(orig, ends),
                widths(orig, p),
            )] == p,
        forall|m: int, n: int|
            0 <= m < n < box_points(orig, ends).len() ==> lex_less(
                #[trigger] box_points(orig, ends)[m],
                #[trigger] box_points(orig, ends)[n],
            ),
{
    let w = widths(orig, ends);
    assert forall|n: int| 0 <= n < box_points(orig, ends).len() implies within(
        orig,
        ends,
        #[trigger] box_points(orig, ends)[n],
    ) by {
        lemma_rank_of_unrank(w, n);
    }
    assert forall|p: V3<int>| within(orig, ends, p) implies 0 <= #[trigger] rank(
        w,
        widths(orig, p),
    ) < box_points(orig, ends).len() && box_points(orig, ends)[rank(w, widths(orig, p))] == p by {
        lemma_rank_bounds(w, widths(orig, p));
        lemma_unrank_of_rank(w, widths(orig, p));
    }
    assert forall|m: int, n: int| 0 <= m < n < box_points(orig, ends).len() implies lex_less(
        #[trigger] box_points(orig, ends)[m],
        #[trigger] box_points(orig, ends)[n],
    ) by {
        lemma_unrank_monotone(w, m, n);
    }
}

/// A walk through the points of the box `[orig, ends)` in row-major order:
/// x varies slowest and z fastest.
pub struct SpaceIter<T: Indexish> {
    orig: V3<T>,
    ends: V3<T>,
    cur: V3<T>,
}

impl<T: Indexish> SpaceIter<T> {
    #[verifier::type_invariant]
    spec fn well_formed(self) -> bool {
        let w = widths(ints3(self.orig), ints3(self.ends));
        let c = widths(ints3(self.orig), ints3(self.cur));
        if cells(w) == 0 {
            self.cur == self.ends
        } else {
            inside(w, c) || c == (V3 { x: w.x, y: 0int, z: 0int })
        }
    }

    /// The first corner of the box.
    pub closed spec fn orig(self) -> V3<int> {
        ints3(self.orig)
    }

    /// The corner of the box just past its last point.
    pub closed spec fn ends(self) -> V3<int> {
        ints3(self.ends)
    }

    /// How many points the walk has left behind.
    pub closed spec fn position(self) -> int {
        let w = widths(ints3(self.orig), ints3(self.ends));
        if cells(w) == 0 {
            0
        } else {
            rank(w, widths(ints3(self.orig), ints3(self.cur)))
        }
    }

    /// The points that the walk has yet to give, in order.
    pub open spec fn remaining(self) -> Seq<V3<int>> {
        box_points(self.orig(), self.ends()).skip(self.position())
    }

    /// A walk that starts at the first point of the box `[orig, ends)`.
    pub fn new(orig: V3<T>, ends: V3<T>) -> (r: SpaceIter<T>)
        ensures
            r.orig() == ints3(orig),
            r.ends() == ints3(ends),
            r.position() == 0,
    {
        let nonempty = orig.x.precedes(&ends.x) && orig.y.precedes(&ends.y) && orig.z.precedes(
            &ends.z,
        );
        let cur = if nonempty {
            orig
        } else {
            ends
        };
        proof {
            let w = widths(ints3(orig), ints3(ends));
            if nonempty {
                assert(cells(w) > 0) by (nonlinear_arith)
                    requires
                        w.x > 0,
                        w.y > 0,
                        w.z > 0,
                        cells(w) == w.x * (w.y * w.z),
                ;
                assert(rank(w, p0()) == 0) by (nonlinear_arith)
                    requires
                        rank(w, p0()) == 0 * (w.y * w.z) + 0 * w.z + 0,
                ;
            }
        }
        SpaceIter { orig, ends, cur }
    }

    /// Gives the next point of the walk, or `None` once every point of the
    /// box has been given.
    pub fn next(&mut self) -> (r: Option<V3<T>>)
        ensures
            final(self).orig() == old(self).orig(),
            final(self).ends() == old(self).ends(),
            0 <= old(self).position() <= box_points(old(self).orig(), old(self).ends()).len(),
            match r {
                Some(p) => {
                    &&& old(self).position() < box_points(old(self).orig(), old(self).ends()).len()
                    &&& ints3(p) == box_points(old(self).orig(), old(self).ends())[old(
                        self,
                    ).position()]
                    &&& final(self).position() == old(self).position() + 1
                },
                None => {
                    &&& old(self).position() == box_points(old(self).orig(), old(self).ends()).len()
                    &&& final(self).position() == old(self).position()
                },
            },
    {
        proof {
            use_type_invariant(&*self);
        }
        let ghost w = widths(ints3(self.orig), ints3(self.ends));
        let ghost c = widths(ints3(self.orig), ints3(self.cur));
        if self.cur.x.same(&self.ends.x) {
            proof {
                if cells(w) != 0 {
                    assert(rank(w, c) == cells(w)) by (nonlinear_arith)
                        requires
                            c == (V3 { x: w.x, y: 0int, z: 0int }),
                            rank(w, c) == c.x * (w.y * w.z) + c.y * w.z + c.z,
                            cells(w) == w.x * (w.y * w.z),
                    ;
                }
            }
            return None;
        }
        proof {
            T::lemma_as_int(self.cur.x, self.ends.x);
            T::lemma_as_int(self.ends.x, self.ends.x);
            T::lemma_as_int(self.ends.y, self.ends.y);
            T::lemma_as_int(self.ends.z, self.ends.z);
            lemma_rank_bounds(w, c);
            lemma_unrank_of_rank(w, c);
        }
        let value = self.cur;
        let mut cur = self.cur;
        cur.z.increment();
        if cur.z.same(&self.ends.z) {
            cur.z = self.orig.z;
            cur.y.increment();
        }
        if cur.y.same(&self.ends.y) {
            cur.y = self.orig.y;
            cur.x.increment();
        }
        proof {
            let n = rank(w, c);
            let d = widths(ints3(self.orig), ints3(cur));
            if n + 1 < cells(w) {
                lemma_unrank_step(w, n);
                lemma_rank_of_unrank(w, n + 1);
            } else {
                assert(c == (V3 { x: w.x - 1, y: w.y - 1, z: w.z - 1 })) by {
                    let last = V3 { x: w.x - 1, y: w.y - 1, z: w.z - 1 };
                    assert(rank(w, last) == cells(w) - 1) by (nonlinear_arith)
                        requires
                            rank(w, last) == last.x * (w.y * w.z) + last.y * w.z + last.z,
                            last == (V3 { x: w.x - 1, y: w.y - 1, z: w.z - 1 }),
                            cells(w) == w.x * (w.y * w.z),
                    ;
                    lemma_rank_unique(w, c, last);
                }
                assert(rank(w, d) == cells(w)) by (nonlinear_arith)
                    requires
                        d == (V3 { x: w.x, y: 0int, z: 0int }),
                        rank(w, d) == d.x * (w.y * w.z) + d.y * w.z + d.z,
                        cells(w) == w.x * (w.y * w.z),
                ;
            }
        }
        self.cur = cur;
        Some(value)
    }
}

} // verus!
