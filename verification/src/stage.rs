//! The stage: a window of slots around a centre that can move, laid on a
//! ring so that moving the centre moves no content.

use vstd::prelude::*;
use vstd::arithmetic::div_mod::{
    lemma_fundamental_div_mod,
    lemma_fundamental_div_mod_converse,
    lemma_mod_bound,
};
use crate::array3d;
use crate::array3d::{lemma_nth_index, Array, DynamicDims, Layout};
use crate::chunk::Coords;
use crate::math::{fits_i32, sum3, V3, V3i32, V3usize};
use crate::math::iter::{
    box_points,
    cells,
    inside,
    lemma_rank_bounds,
    lemma_rank_of_unrank,
    lemma_unrank_of_rank,
    rank,
    unrank,
    widths,
    SpaceIter,
};

verus! {

/// One slot of the stage: the coordinate that it was last stamped with, and
/// what it holds.
pub struct Element<T> {
    pub coords: Coords,
    pub content: Option<T>,
}

/// What a window coordinate lacks after the centre has moved.
pub enum StaleChunk<T> {
    /// The slot of the coordinate holds nothing.
    Missing(Coords),
    /// The slot of the coordinate `new_coords` held `value`, which belongs to
    /// `old_coords` and was taken out.
    Evicted { old_coords: Coords, new_coords: Coords, value: T },
}

/// The place on a ring of `w` slots of the coordinate `x`: `x` modulo `w`.
pub open spec fn wrap(w: int, x: int) -> int {
    x % w
}

/// The coordinate at or after `lo`, and less than `w` after it, whose place
/// on a ring of `w` slots is `i`.
pub open spec fn unwrap(lo: int, w: int, i: int) -> int {
    lo + (i - lo) % w
}

/// The place on the ring, along each axis, of the coordinate `abs`.
pub open spec fn wrap3(w: int, abs: V3<int>) -> V3<int> {
    V3 { x: wrap(w, abs.x), y: wrap(w, abs.y), z: wrap(w, abs.z) }
}

/// The least coordinate of the window of width `w` around `center`. The
/// width is even, so the window is not balanced: it reaches from
/// `1 - w / 2` to `w / 2` around the centre.
pub open spec fn window_origin(center: V3<int>, w: int) -> V3<int> {
    V3 { x: center.x + 1 - w / 2, y: center.y + 1 - w / 2, z: center.z + 1 - w / 2 }
}

/// Whether `abs` lies in the window of width `w` around `center`.
pub open spec fn in_window(center: V3<int>, w: int, abs: V3<int>) -> bool {
    let lo = window_origin(center, w);
    &&& lo.x <= abs.x < lo.x + w
    &&& lo.y <= abs.y < lo.y + w
    &&& lo.z <= abs.z < lo.z + w
}

/// On a ring as wide as the window, a coordinate of the window has a place
/// on the ring, and is found again from that place.
pub proof fn lemma_wrap_unwrap(lo: int, w: int, x: int)
    requires
        0 < w,
        lo <= x < lo + w,
    ensures
        0 <= wrap(w, x) < w,
        unwrap(lo, w, wrap(w, x)) == x,
{
    lemma_mod_bound(x, w);
    lemma_fundamental_div_mod(x, w);
    let q = x / w;
    let m = x % w;
    assert(m - lo == w * (-q) + (x - lo)) by (nonlinear_arith)
        requires
            x == w * q + m,
    ;
    lemma_fundamental_div_mod_converse(m - lo, w, -q, x - lo);
}

/// Each place on the ring is the place of one coordinate of the window.
pub proof fn lemma_unwrap_wrap(lo: int, w: int, i: int)
    requires
        0 < w,
        0 <= i < w,
    ensures
        lo <= unwrap(lo, w, i) < lo + w,
        wrap(w, unwrap(lo, w, i)) == i,
{
    lemma_mod_bound(i - lo, w);
    lemma_fundamental_div_mod(i - lo, w);
    let k = (i - lo) / w;
    let d = (i - lo) % w;
    assert(lo + d == w * (-k) + i) by (nonlinear_arith)
        requires
            i - lo == w * k + d,
    ;
    lemma_fundamental_div_mod_converse(lo + d, w, -k, i);
}

/// The state of a stage: its centre, the width of its window along each
/// axis, and its slots in row-major order of their places on the ring.
pub struct StageView<T> {
    pub center: Coords,
    pub width: int,
    pub slots: Seq<Element<T>>,
}

impl<T> StageView<T> {
    /// The extent of the ring.
    pub open spec fn dims(self) -> V3<int> {
        V3 { x: self.width, y: self.width, z: self.width }
    }

    /// The least coordinate of the window.
    pub open spec fn origin(self) -> V3<int> {
        window_origin(self.center.0.ints(), self.width)
    }

    /// Whether each slot that holds content is stamped with a coordinate
    /// whose place on the ring is that slot. So the content of a coordinate
    /// is held in the slot of that coordinate and in no other, wherever the
    /// centre is.
    pub open spec fn stamped(self) -> bool {
        forall|f: int|
            0 <= f < self.slots.len() && (#[trigger] self.slots[f]).content is Some ==> rank(
                self.dims(),
                wrap3(self.width, self.slots[f].coords.0.ints()),
            ) == f
    }

    /// There is a slot for each place of the ring, the width is even, and
    /// the coordinates of the window are within the range of `i32`.
    pub open spec fn shaped(self) -> bool {
        &&& 0 <= self.width
        &&& self.width % 2 == 0
        &&& self.slots.len() == cells(self.dims())
        &&& fits_i32(self.origin())
        &&& fits_i32(
            V3 {
                x: self.origin().x + self.width,
                y: self.origin().y + self.width,
                z: self.origin().z + self.width,
            },
        )
    }

    /// The ring and the window are well shaped, and content is held in the
    /// slot of its coordinate.
    pub open spec fn wf(self) -> bool {
        self.shaped() && self.stamped()
    }

    /// Whether all content belongs to the window: each slot that holds
    /// content is stamped with the coordinate of the window whose slot it
    /// is. A stage is so but while its centre has moved and its window is
    /// not yet swept.
    pub open spec fn resident(self) -> bool {
        forall|f: int|
            0 <= f < self.slots.len() && (#[trigger] self.slots[f]).content is Some
                ==> self.slots[f].coords == self.owner(f)
    }

    /// Whether `abs` lies in the window.
    pub open spec fn has(self, abs: Coords) -> bool {
        in_window(self.center.0.ints(), self.width, abs.0.ints())
    }

    /// The position among the slots of the slot of `abs`.
    pub open spec fn index_of(self, abs: Coords) -> int {
        rank(self.dims(), wrap3(self.width, abs.0.ints()))
    }

    /// The slot of `abs`: the one at the place of `abs` on the ring.
    pub open spec fn slot(self, abs: Coords) -> Element<T> {
        self.slots[self.index_of(abs)]
    }

    /// What the stage holds for `abs`: the content of its slot, where `abs`
    /// lies in the window and the slot is stamped with `abs`.
    pub open spec fn content(self, abs: Coords) -> Option<T> {
        if self.has(abs) && self.slot(abs).coords == abs {
            self.slot(abs).content
        } else {
            None
        }
    }

    /// The position of the window coordinate `abs` in row-major order.
    pub open spec fn rank_of(self, abs: Coords) -> int {
        rank(self.dims(), crate::math::diff3(abs.0.ints(), self.origin()))
    }

    /// The coordinate that lies `rel` from the centre, where it lies in the
    /// window.
    pub open spec fn at_rel(self, rel: V3<int>) -> Coords {
        Coords(
            V3 {
                x: (self.center.0.x + rel.x) as i32,
                y: (self.center.0.y + rel.y) as i32,
                z: (self.center.0.z + rel.z) as i32,
            },
        )
    }

    /// What the stage holds for the coordinate that lies `rel` from the
    /// centre: nothing, where that coordinate lies outside the window.
    pub open spec fn content_rel(self, rel: V3<int>) -> Option<T> {
        if in_window(self.center.0.ints(), self.width, sum3(self.center.0.ints(), rel)) {
            self.content(self.at_rel(rel))
        } else {
            None
        }
    }

    /// The state with `e` in the slot of `abs`.
    pub open spec fn with_slot(self, abs: Coords, e: Element<T>) -> StageView<T> {
        StageView {
            center: self.center,
            width: self.width,
            slots: self.slots.update(self.index_of(abs), e),
        }
    }

    /// The `n`-th coordinate of the window in row-major order.
    pub open spec fn nth(self, n: int) -> Coords {
        let p = unrank(self.dims(), n);
        let lo = self.origin();
        Coords(V3 { x: (lo.x + p.x) as i32, y: (lo.y + p.y) as i32, z: (lo.z + p.z) as i32 })
    }

    /// What is to be reported of the window coordinate `abs`: that its slot
    /// holds nothing, or that it holds the content of another coordinate, or
    /// nothing at all.
    pub open spec fn stale_at(self, abs: Coords) -> Seq<StaleChunk<T>> {
        let e = self.slot(abs);
        if e.content is None {
            seq![StaleChunk::Missing(abs)]
        } else if e.coords != abs {
            seq![
                StaleChunk::Evicted {
                    old_coords: e.coords,
                    new_coords: abs,
                    value: e.content->Some_0,
                },
            ]
        } else {
            Seq::empty()
        }
    }

    /// What is to be reported of the first `n` coordinates of the window.
    pub open spec fn stale_upto(self, n: nat) -> Seq<StaleChunk<T>>
        decreases n,
    {
        if n == 0 {
            Seq::empty()
        } else {
            self.stale_upto((n - 1) as nat) + self.stale_at(self.nth(n - 1))
        }
    }

    /// What is to be reported of the whole window.
    pub open spec fn stale(self) -> Seq<StaleChunk<T>> {
        self.stale_upto(cells(self.dims()) as nat)
    }

    /// The slot `e` of the window coordinate `abs` once the window has been
    /// swept: content that belongs to another coordinate is gone.
    pub open spec fn swept(e: Element<T>, abs: Coords) -> Element<T> {
        if e.content is Some && e.coords != abs {
            Element { coords: e.coords, content: None }
        } else {
            e
        }
    }

    /// Whether every coordinate of the window has its content in place.
    pub open spec fn settled(self) -> bool {
        forall|abs: Coords|
            self.has(abs) ==> (#[trigger] self.slot(abs)).coords == abs && self.slot(
                abs,
            ).content is Some
    }

    /// The state with its centre moved to `center`, the slots as they are.
    pub open spec fn recentred(self, center: Coords) -> StageView<T> {
        StageView { center, width: self.width, slots: self.slots }
    }

    /// Whether `after` is this state after its window was swept: each slot
    /// has lost the content that belongs to another coordinate than the one
    /// that the window gives it, and nothing else has changed.
    pub open spec fn swept_to(self, after: StageView<T>) -> bool {
        &&& after.center == self.center
        &&& after.width == self.width
        &&& after.slots.len() == self.slots.len()
        &&& forall|abs: Coords|
            self.has(abs) ==> #[trigger] after.slot(abs) == Self::swept(self.slot(abs), abs)
    }

    /// Whether `after` is this state after the slots of the coordinates that
    /// were reported have been filled: each of them holds content stamped
    /// with its coordinate, and the other slots of the window are as they
    /// were.
    pub open spec fn filled_to(self, after: StageView<T>) -> bool {
        &&& after.center == self.center
        &&& after.width == self.width
        &&& after.slots.len() == self.slots.len()
        &&& forall|abs: Coords|
            self.has(abs) ==> if self.stale_at(abs).len() > 0 {
                (#[trigger] after.slot(abs)).coords == abs && after.slot(abs).content is Some
            } else {
                after.slot(abs) == self.slot(abs)
            }
    }

    /// The window and the ring. In a well-formed state with slots, each
    /// coordinate of the window has a slot; two coordinates of the window
    /// with one slot are the same coordinate; and each slot is the slot of a
    /// coordinate of the window. So each coordinate of the window has a slot
    /// to itself, and no slot is left over.
    pub proof fn lemma_window_slots(self)
        requires
            self.shaped(),
            0 < self.width,
        ensures
            forall|abs: Coords|
                self.has(abs) ==> 0 <= #[trigger] self.index_of(abs) < self.slots.len(),
            forall|a: Coords, b: Coords|
                self.has(a) && self.has(b) && #[trigger] self.index_of(a) == #[trigger] self.index_of(
                    b,
                ) ==> a == b,
            forall|f: int|
                0 <= f < self.slots.len() ==> self.has(#[trigger] self.owner(f)) && self.index_of(
                    self.owner(f),
                ) == f,
    {
        let w = self.width;
        let lo = self.origin();
        assert forall|abs: Coords| self.has(abs) implies 0 <= #[trigger] self.index_of(abs)
            < self.slots.len() by {
            self.lemma_slot_of(abs);
        }
        assert forall|a: Coords, b: Coords|
            self.has(a) && self.has(b) && #[trigger] self.index_of(a) == #[trigger] self.index_of(
                b,
            ) implies a == b by {
            self.lemma_slot_of(a);
            self.lemma_slot_of(b);
        }
        assert forall|f: int| 0 <= f < self.slots.len() implies self.has(
            #[trigger] self.owner(f),
        ) && self.index_of(self.owner(f)) == f by {
            let p = unrank(self.dims(), f);
            lemma_rank_of_unrank(self.dims(), f);
            lemma_unwrap_wrap(lo.x, w, p.x);
            lemma_unwrap_wrap(lo.y, w, p.y);
            lemma_unwrap_wrap(lo.z, w, p.z);
        }
    }

    /// The coordinate of the window whose slot is at position `f`.
    pub open spec fn owner(self, f: int) -> Coords {
        let p = unrank(self.dims(), f);
        let lo = self.origin();
        Coords(
            V3 {
                x: unwrap(lo.x, self.width, p.x) as i32,
                y: unwrap(lo.y, self.width, p.y) as i32,
                z: unwrap(lo.z, self.width, p.z) as i32,
            },
        )
    }

    /// The slot of a coordinate of the window: its place lies on the ring,
    /// its position among the slots, and it owns the slot.
    pub proof fn lemma_slot_of(self, abs: Coords)
        requires
            self.shaped(),
            self.has(abs),
        ensures
            0 < self.width,
            inside(self.dims(), wrap3(self.width, abs.0.ints())),
            0 <= self.index_of(abs) < self.slots.len(),
            self.owner(self.index_of(abs)) == abs,
    {
        let w = self.width;
        let lo = self.origin();
        let a = abs.0.ints();
        lemma_wrap_unwrap(lo.x, w, a.x);
        lemma_wrap_unwrap(lo.y, w, a.y);
        lemma_wrap_unwrap(lo.z, w, a.z);
        lemma_rank_bounds(self.dims(), wrap3(w, a));
        lemma_unrank_of_rank(self.dims(), wrap3(w, a));
    }

    /// The `n`-th coordinate of the window lies in the window at position
    /// `n`, and its components are those of the origin plus those of the
    /// `n`-th point of the ring's box.
    pub proof fn lemma_nth(self, n: int)
        requires
            self.shaped(),
            0 <= n < cells(self.dims()),
        ensures
            self.has(self.nth(n)),
            self.nth(n).0.ints() == sum3(self.origin(), unrank(self.dims(), n)),
            self.rank_of(self.nth(n)) == n,
    {
        lemma_rank_of_unrank(self.dims(), n);
    }

    /// A coordinate of the window has a position in row-major order, at
    /// which it is found.
    pub proof fn lemma_rank_of(self, abs: Coords)
        requires
            self.shaped(),
            self.has(abs),
        ensures
            0 <= self.rank_of(abs) < cells(self.dims()),
            self.nth(self.rank_of(abs)) == abs,
    {
        let d = crate::math::diff3(abs.0.ints(), self.origin());
        lemma_rank_bounds(self.dims(), d);
        lemma_unrank_of_rank(self.dims(), d);
    }

    /// A settled state has nothing to report of the first `n` coordinates of
    /// its window, whatever `n`.
    pub proof fn lemma_settled_reports_nothing(self, n: nat)
        requires
            self.shaped(),
            self.settled(),
            n <= cells(self.dims()),
        ensures
            self.stale_upto(n) == Seq::<StaleChunk<T>>::empty(),
        decreases n,
    {
        if n > 0 {
            self.lemma_settled_reports_nothing((n - 1) as nat);
            self.lemma_nth(n - 1);
        }
    }
}

impl<T> StaleChunk<T> {
    /// The coordinate of the window that the report is about.
    pub open spec fn spec_coords(self) -> Coords {
        match self {
            StaleChunk::Missing(coords) => coords,
            StaleChunk::Evicted { old_coords, new_coords, value } => new_coords,
        }
    }

    /// The coordinate of the window that the report is about.
    pub fn coords(&self) -> (r: Coords)
        ensures
            r == self.spec_coords(),
    {
        match self {
            StaleChunk::Missing(coords) => *coords,
            StaleChunk::Evicted { old_coords, new_coords, value } => *new_coords,
        }
    }
}

/// What a report holds. Each entry of the report of the first `n`
/// coordinates of the window is about one of them, and is what is to be
/// reported of it; and each of them of which something is to be reported
/// has an entry.
pub proof fn lemma_stale_entries<T>(v: StageView<T>, n: nat)
    requires
        v.shaped(),
        n <= cells(v.dims()),
    ensures
        forall|k: int|
            0 <= k < v.stale_upto(n).len() ==> v.has((#[trigger] v.stale_upto(n)[k]).spec_coords())
                && v.stale_at(v.stale_upto(n)[k].spec_coords()) == seq![v.stale_upto(n)[k]],
        forall|m: int|
            0 <= m < n && v.stale_at(#[trigger] v.nth(m)).len() > 0 ==> exists|k: int|
                0 <= k < v.stale_upto(n).len() && (#[trigger] v.stale_upto(n)[k]).spec_coords()
                    == v.nth(m),
    decreases n,
{
    if n > 0 {
        let prev = v.stale_upto((n - 1) as nat);
        let last = v.nth(n - 1);
        lemma_stale_entries(v, (n - 1) as nat);
        v.lemma_nth(n - 1);
        assert forall|m: int| 0 <= m < n && v.stale_at(#[trigger] v.nth(m)).len() > 0 implies exists|
            k: int,
        |
            0 <= k < v.stale_upto(n).len() && (#[trigger] v.stale_upto(n)[k]).spec_coords() == v.nth(
                m,
            ) by {
            if m < n - 1 {
                let k = choose|k: int|
                    0 <= k < prev.len() && (#[trigger] prev[k]).spec_coords() == v.nth(m);
                assert(v.stale_upto(n)[k] == prev[k]);
            } else {
                let k = prev.len() as int;
                assert(v.stale_upto(n)[k] == v.stale_at(last)[0]);
            }
        }
    }
}

/// The entries of a report come in the order of the window: the coordinate
/// of each entry of the report of the first `n` coordinates is one of them,
/// and of two entries the earlier is about the earlier coordinate.
pub proof fn lemma_stale_order<T>(v: StageView<T>, n: nat)
    requires
        v.shaped(),
        n <= cells(v.dims()),
    ensures
        forall|k: int|
            0 <= k < v.stale_upto(n).len() ==> 0 <= v.rank_of(
                (#[trigger] v.stale_upto(n)[k]).spec_coords(),
            ) < n,
        forall|j: int, k: int|
            0 <= j < k < v.stale_upto(n).len() ==> v.rank_of(
                (#[trigger] v.stale_upto(n)[j]).spec_coords(),
            ) < v.rank_of((#[trigger] v.stale_upto(n)[k]).spec_coords()),
    decreases n,
{
    if n > 0 {
        let prev = v.stale_upto((n - 1) as nat);
        let last = v.nth(n - 1);
        lemma_stale_order(v, (n - 1) as nat);
        v.lemma_nth(n - 1);
        assert(v.stale_upto(n) == prev + v.stale_at(last));
        assert forall|k: int| 0 <= k < v.stale_upto(n).len() implies 0 <= v.rank_of(
            (#[trigger] v.stale_upto(n)[k]).spec_coords(),
        ) < n by {
            if k < prev.len() {
                assert(v.stale_upto(n)[k] == prev[k]);
            } else {
                assert(v.stale_upto(n)[k] == v.stale_at(last)[0]);
            }
        }
        assert forall|j: int, k: int| 0 <= j < k < v.stale_upto(n).len() implies v.rank_of(
            (#[trigger] v.stale_upto(n)[j]).spec_coords(),
        ) < v.rank_of((#[trigger] v.stale_upto(n)[k]).spec_coords()) by {
            assert(v.stale_upto(n)[j] == prev[j]);
            if k < prev.len() {
                assert(v.stale_upto(n)[k] == prev[k]);
            } else {
                assert(v.stale_upto(n)[k] == v.stale_at(last)[0]);
            }
        }
    }
}

/// What the entries of a report are about. Of a state whose content is held
/// in the slots of its coordinates: each entry is about a coordinate of the
/// window and is what is to be reported of it; no two entries are about one
/// coordinate; each coordinate of the window of which something is to be
/// reported has an entry; content that is evicted belongs to a coordinate
/// outside the window and was held in the slot that this coordinate shares
/// with the entry's; and no two entries evict the content of one coordinate.
pub proof fn lemma_report<T>(v: StageView<T>)
    requires
        v.wf(),
    ensures
        forall|k: int|
            0 <= k < v.stale().len() ==> v.has((#[trigger] v.stale()[k]).spec_coords())
                && v.stale_at(v.stale()[k].spec_coords()) == seq![v.stale()[k]],
        forall|j: int, k: int|
            0 <= j < k < v.stale().len() ==> (#[trigger] v.stale()[j]).spec_coords() != (
            #[trigger] v.stale()[k]).spec_coords(),
        forall|abs: Coords|
            v.has(abs) && (#[trigger] v.stale_at(abs)).len() > 0 ==> exists|k: int|
                0 <= k < v.stale().len() && (#[trigger] v.stale()[k]).spec_coords() == abs,
        forall|k: int|
            0 <= k < v.stale().len() && (#[trigger] v.stale()[k]) is Evicted ==> {
                let e = v.stale()[k];
                &&& !v.has(e->old_coords)
                &&& v.index_of(e->old_coords) == v.index_of(e->new_coords)
                &&& v.slot(e->new_coords) == (Element {
                    coords: e->old_coords,
                    content: Some(e->value),
                })
            },
        forall|j: int, k: int|
            0 <= j < k < v.stale().len() && (#[trigger] v.stale()[j]) is Evicted && (
            #[trigger] v.stale()[k]) is Evicted ==> v.stale()[j]->old_coords
                != v.stale()[k]->old_coords,
{
    let n = cells(v.dims()) as nat;
    let report = v.stale();
    lemma_stale_entries(v, n);
    lemma_stale_order(v, n);
    assert forall|abs: Coords| v.has(abs) && (#[trigger] v.stale_at(abs)).len() > 0 implies exists|
        k: int,
    | 0 <= k < report.len() && (#[trigger] report[k]).spec_coords() == abs by {
        v.lemma_rank_of(abs);
        assert(v.stale_at(v.nth(v.rank_of(abs))).len() > 0);
    }
    assert forall|k: int| 0 <= k < report.len() && (#[trigger] report[k]) is Evicted implies {
        let e = report[k];
        &&& !v.has(e->old_coords)
        &&& v.index_of(e->old_coords) == v.index_of(e->new_coords)
        &&& v.slot(e->new_coords) == (Element { coords: e->old_coords, content: Some(e->value) })
    } by {
        let e = report[k];
        let abs = e.spec_coords();
        assert(v.stale_at(abs) == seq![e]);
        assert(v.stale_at(abs)[0] == e);
        v.lemma_slot_of(abs);
        assert(v.slots[v.index_of(abs)].content is Some);
        if v.has(e->old_coords) {
            v.lemma_slot_of(e->old_coords);
        }
    }
    assert forall|j: int, k: int|
        0 <= j < k < report.len() && (#[trigger] report[j]) is Evicted && (
        #[trigger] report[k]) is Evicted implies report[j]->old_coords != report[k]->old_coords by {
        v.lemma_slot_of(report[j].spec_coords());
        v.lemma_slot_of(report[k].spec_coords());
    }
}

/// Content that stays in the window survives the move. Let a stage hold
/// content for `a`, and let its centre move to where `a` lies in the window
/// still. Then the slot of `a` is left as it is, and the report does not
/// name `a`: not as missing, not as the coordinate that evicted content
/// belongs to, not as the coordinate whose slot was emptied.
pub proof fn lemma_relocate_keeps<T>(before: StageView<T>, center: Coords, a: Coords)
    requires
        before.wf(),
        before.recentred(center).wf(),
        before.content(a) is Some,
        before.recentred(center).has(a),
    ensures
        StageView::swept(before.recentred(center).slot(a), a) == before.slot(a),
        before.recentred(center).content(a) == before.content(a),
        forall|k: int|
            0 <= k < before.recentred(center).stale().len() ==> {
                let e = #[trigger] before.recentred(center).stale()[k];
                &&& e.spec_coords() != a
                &&& e is Evicted ==> e->old_coords != a
            },
{
    let v = before.recentred(center);
    lemma_report(v);
    assert(v.stale_at(a) =~= Seq::empty());
    assert forall|k: int| 0 <= k < v.stale().len() implies {
        let e = #[trigger] v.stale()[k];
        &&& e.spec_coords() != a
        &&& e is Evicted ==> e->old_coords != a
    } by {
        let e = v.stale()[k];
        assert(v.stale_at(e.spec_coords()) == seq![e]);
        assert(v.stale_at(e.spec_coords()).len() == 1);
    }
}

/// Content that leaves the window is evicted, once, and nothing else is.
/// Let all content of a stage belong to its window, and let its centre
/// move. For each coordinate `a` whose content the stage held and which lies
/// outside the new window, the report has an entry that evicts that content
/// from the slot of `a`, for the coordinate of the new window that has this
/// slot. Each eviction of the report is of such content: the stage held it
/// for the coordinate that it belongs to, which lies outside the new window
/// and shares its place on the ring with the entry's coordinate. No two
/// entries evict the content of one coordinate.
pub proof fn lemma_relocate_evicts<T>(before: StageView<T>, center: Coords)
    requires
        before.wf(),
        before.resident(),
        before.recentred(center).wf(),
    ensures
        forall|a: Coords|
            (#[trigger] before.content(a)) is Some && !before.recentred(center).has(a)
                ==> exists|k: int|
                0 <= k < before.recentred(center).stale().len()
                    && #[trigger] before.recentred(center).stale()[k] == (StaleChunk::Evicted {
                    old_coords: a,
                    new_coords: before.recentred(center).owner(before.index_of(a)),
                    value: before.content(a)->Some_0,
                }),
        forall|k: int|
            0 <= k < before.recentred(center).stale().len() && (
            #[trigger] before.recentred(center).stale()[k]) is Evicted ==> {
                let e = before.recentred(center).stale()[k];
                &&& before.content(e->old_coords) == Some(e->value)
                &&& !before.recentred(center).has(e->old_coords)
                &&& before.recentred(center).has(e->new_coords)
                &&& wrap3(before.width, e->old_coords.0.ints()) == wrap3(
                    before.width,
                    e->new_coords.0.ints(),
                )
            },
        forall|j: int, k: int|
            0 <= j < k < before.recentred(center).stale().len() && (
            #[trigger] before.recentred(center).stale()[j]) is Evicted && (
            #[trigger] before.recentred(center).stale()[k]) is Evicted
                ==> before.recentred(center).stale()[j]->old_coords != before.recentred(
                center,
            ).stale()[k]->old_coords,
{
    let v = before.recentred(center);
    let report = v.stale();
    lemma_report(v);
    assert forall|a: Coords|
        (#[trigger] before.content(a)) is Some && !v.has(a) implies exists|k: int|
        0 <= k < report.len() && #[trigger] report[k] == (StaleChunk::Evicted {
            old_coords: a,
            new_coords: v.owner(before.index_of(a)),
            value: before.content(a)->Some_0,
        }) by {
        before.lemma_slot_of(a);
        v.lemma_window_slots();
        let b = v.owner(before.index_of(a));
        assert(v.has(b) && v.index_of(b) == before.index_of(a));
        assert(v.slot(b) == before.slot(a));
        assert(v.stale_at(b).len() > 0);
        let k = choose|k: int| 0 <= k < report.len() && (#[trigger] report[k]).spec_coords() == b;
        assert(v.stale_at(b) == seq![report[k]]);
        assert(v.stale_at(b)[0] == report[k]);
    }
    assert forall|k: int| 0 <= k < report.len() && (#[trigger] report[k]) is Evicted implies {
        let e = report[k];
        &&& before.content(e->old_coords) == Some(e->value)
        &&& !v.has(e->old_coords)
        &&& v.has(e->new_coords)
        &&& wrap3(before.width, e->old_coords.0.ints()) == wrap3(
            before.width,
            e->new_coords.0.ints(),
        )
    } by {
        let e = report[k];
        let b = e->new_coords;
        assert(e.spec_coords() == b);
        v.lemma_slot_of(b);
        let f = v.index_of(b);
        assert(before.slots[f] == (Element { coords: e->old_coords, content: Some(e->value) }));
        assert(e->old_coords == before.owner(f));
        before.lemma_window_slots();
        assert(before.has(e->old_coords) && before.index_of(e->old_coords) == f);
        lemma_mod_bound(e->old_coords.0.x as int, before.width);
        lemma_mod_bound(e->old_coords.0.y as int, before.width);
        lemma_mod_bound(e->old_coords.0.z as int, before.width);
        crate::math::iter::lemma_rank_unique(
            before.dims(),
            wrap3(before.width, e->old_coords.0.ints()),
            wrap3(before.width, b.0.ints()),
        );
    }
}

/// Let a stage be moved to a centre, which sweeps its
/// window; let the slots of all reported coordinates then be filled. Moving
/// the stage to the same centre again reports nothing.
pub proof fn lemma_relocate_idempotent<T>(
    before: StageView<T>,
    center: Coords,
    swept: StageView<T>,
    filled: StageView<T>,
)
    requires
        before.recentred(center).wf(),
        before.recentred(center).swept_to(swept),
        swept.filled_to(filled),
    ensures
        filled.settled(),
        filled.recentred(center).stale() == Seq::<StaleChunk<T>>::empty(),
{
    filled.lemma_settled_reports_nothing(cells(filled.dims()) as nat);
}

/// A ring too wide for its slots to be counted in a `usize` cannot be: a
/// ring that can be is less than `2^22` wide.
proof fn lemma_width_bound(w: int)
    by (nonlinear_arith)
    requires
        0 <= w,
        (if w <= 0 { 0 } else { w * (w * w) }) <= 0xffff_ffff_ffff_ffff,
    ensures
        w < 0x40_0000,
{
}

/// The place of `x` on a ring of `w` slots.
fn ring_place(x: i32, w: i32) -> (r: usize)
    requires
        0 < w,
    ensures
        r == wrap(w as int, x as int),
        r < w,
{
    proof {
        lemma_mod_bound(x as int, w as int);
    }
    match x.checked_rem_euclid(w) {
        Some(m) => m as usize,
        None => vstd::pervasive::unreached(),
    }
}

/// A window of slots around a centre, each slot stamped with the coordinate
/// whose content it holds. The slot of a coordinate is found by its place on
/// a ring, whatever the centre, so that moving the centre moves no content.
pub struct Stage<T> {
    array: Array<DynamicDims, Vec<Element<T>>>,
    center: Coords,
}

impl<T> View for Stage<T> {
    type V = StageView<T>;

    closed spec fn view(&self) -> StageView<T> {
        StageView {
            center: self.center,
            width: self.array.extent().x as int,
            slots: self.array.backing(),
        }
    }
}

impl<T> Stage<T> {
    /// The stage has a slot for each place of its ring, its window lies
    /// within the range of `i32`, and content is held in the slot of its
    /// coordinate.
    pub closed spec fn ringed(&self) -> bool {
        &&& self.array.wf()
        &&& self.array.layout() == Layout::plain(self.array.extent())
        &&& self.array.extent().y == self.array.extent().x
        &&& self.array.extent().z == self.array.extent().x
        &&& self@.wf()
    }

    /// The stage is ringed, and each slot that holds content holds the
    /// content of the coordinate of the window whose slot it is.
    pub open spec fn wf(&self) -> bool {
        self.ringed() && self@.resident()
    }

    /// What follows of a ringed stage: its state is well-formed, and the ring
    /// is less than `2^22` wide.
    pub proof fn lemma_wf(&self)
        requires
            self.ringed(),
        ensures
            self@.wf(),
            self@.width < 0x40_0000,
    {
        lemma_width_bound(self@.width);
    }

    /// The extent of the ring along each axis.
    pub fn dims(&self) -> (r: V3usize)
        requires
            self.ringed(),
        ensures
            r.ints() == self@.dims(),
    {
        self.array.dims()
    }

    /// An empty stage whose window reaches `radius` around `center`. Its
    /// slots hold nothing; the slot at index `ijk` is stamped with
    /// `center - radius + ijk`.
    pub fn new(radius: i32, center: Coords) -> (r: Stage<T>)
        requires
            0 <= radius,
            cells(V3 { x: 2 * radius, y: 2 * radius, z: 2 * radius }) <= usize::MAX,
            fits_i32(
                V3 { x: center.0.x - radius, y: center.0.y - radius, z: center.0.z - radius },
            ),
            fits_i32(
                V3 { x: center.0.x + radius + 1, y: center.0.y + radius + 1, z: center.0.z + radius + 1 },
            ),
        ensures
            r.wf(),
            r@.center == center,
            r@.width == 2 * radius,
            forall|f: int|
                0 <= f < r@.slots.len() ==> #[trigger] r@.slots[f] == (Element::<T> {
                    coords: Coords(
                        V3 {
                            x: (center.0.x - radius + unrank(r@.dims(), f).x) as i32,
                            y: (center.0.y - radius + unrank(r@.dims(), f).y) as i32,
                            z: (center.0.z - radius + unrank(r@.dims(), f).z) as i32,
                        },
                    ),
                    content: None,
                }),
    {
        proof {
            lemma_width_bound(2 * radius);
        }
        let offset = V3::repeat(radius);
        let width = radius as usize * 2;
        let dims = V3::repeat(width);
        let stamp = |ijk: V3usize| -> (e: Element<T>)
            requires
                ijk.x < width && ijk.y < width && ijk.z < width,
                0 <= radius && width == 2 * radius && width < 0x40_0000,
                offset == (V3 { x: radius, y: radius, z: radius }),
                fits_i32(
                    V3 { x: center.0.x - radius, y: center.0.y - radius, z: center.0.z - radius },
                ),
                fits_i32(
                    V3 {
                        x: center.0.x + radius + 1,
                        y: center.0.y + radius + 1,
                        z: center.0.z + radius + 1,
                    },
                ),
            ensures
                e == (Element::<T> {
                    coords: Coords(
                        V3 {
                            x: (center.0.x - radius + ijk.x) as i32,
                            y: (center.0.y - radius + ijk.y) as i32,
                            z: (center.0.z - radius + ijk.z) as i32,
                        },
                    ),
                    content: None,
                }),
            {
                Element {
                    coords: center - offset + V3 { x: ijk.x as i32, y: ijk.y as i32, z: ijk.z as i32 },
                    content: None,
                }
            };
        let array = Array::generate_with_dims(dims, stamp);
        let r = Stage { array, center };
        proof {
            array.lemma_plain();
            lemma_nth_index(array.layout());
            assert forall|f: int| 0 <= f < r@.slots.len() implies #[trigger] r@.slots[f] == (Element::<
                T,
            > {
                coords: Coords(
                    V3 {
                        x: (center.0.x - radius + unrank(r@.dims(), f).x) as i32,
                        y: (center.0.y - radius + unrank(r@.dims(), f).y) as i32,
                        z: (center.0.z - radius + unrank(r@.dims(), f).z) as i32,
                    },
                ),
                content: None,
            }) by {
                let l = array.layout();
                lemma_rank_of_unrank(l.dims.ints(), f);
            }
        }
        r
    }

    /// The least relative coordinate of the window along each axis.
    pub fn relative_mins(&self) -> (r: V3i32)
        requires
            self.ringed(),
        ensures
            r.ints() == (V3 {
                x: 1 - self@.width / 2,
                y: 1 - self@.width / 2,
                z: 1 - self@.width / 2,
            }),
    {
        proof {
            self.lemma_wf();
        }
        let d = self.dims();
        V3 { x: 1 - (d.x as i32 / 2), y: 1 - (d.y as i32 / 2), z: 1 - (d.z as i32 / 2) }
    }

    /// The relative coordinate just past the window along each axis.
    pub fn relative_maxs(&self) -> (r: V3i32)
        requires
            self.ringed(),
        ensures
            r.ints() == (V3 {
                x: 1 + self@.width / 2,
                y: 1 + self@.width / 2,
                z: 1 + self@.width / 2,
            }),
    {
        proof {
            self.lemma_wf();
        }
        let d = self.dims();
        V3 { x: 1 + (d.x as i32 / 2), y: 1 + (d.y as i32 / 2), z: 1 + (d.z as i32 / 2) }
    }

    /// The coordinate that lies `rel` from the centre.
    pub fn relative_to_absolute(&self, rel: V3i32) -> (r: Coords)
        requires
            fits_i32(sum3(self@.center.0.ints(), rel.ints())),
        ensures
            r.0.ints() == sum3(self@.center.0.ints(), rel.ints()),
    {
        self.center + rel
    }

    /// Where `abs` lies from the centre.
    pub fn absolute_to_relative(&self, abs: Coords) -> (r: V3i32)
        requires
            fits_i32(crate::math::diff3(abs.0.ints(), self@.center.0.ints())),
        ensures
            r.ints() == crate::math::diff3(abs.0.ints(), self@.center.0.ints()),
    {
        abs - self.center
    }

    /// A walk through the relative coordinates of the window in row-major
    /// order.
    pub fn relative_coords_iter(&self) -> (r: SpaceIter<i32>)
        requires
            self.ringed(),
        ensures
            r.orig() == (V3 {
                x: 1 - self@.width / 2,
                y: 1 - self@.width / 2,
                z: 1 - self@.width / 2,
            }),
            r.ends() == (V3 {
                x: 1 + self@.width / 2,
                y: 1 + self@.width / 2,
                z: 1 + self@.width / 2,
            }),
            r.position() == 0,
    {
        SpaceIter::new(self.relative_mins(), self.relative_maxs())
    }

    /// The slot index of the coordinate that lies `rel` from the centre, if
    /// that coordinate lies in the window.
    pub fn rel_to_ijk(&self, rel: V3i32) -> (r: Option<V3usize>)
        requires
            self.ringed(),
        ensures
            match r {
                Some(ijk) => {
                    &&& in_window(
                        self@.center.0.ints(),
                        self@.width,
                        sum3(self@.center.0.ints(), rel.ints()),
                    )
                    &&& ijk.ints() == wrap3(self@.width, sum3(self@.center.0.ints(), rel.ints()))
                    &&& inside(self@.dims(), ijk.ints())
                },
                None => !in_window(
                    self@.center.0.ints(),
                    self@.width,
                    sum3(self@.center.0.ints(), rel.ints()),
                ),
            },
    {
        proof {
            self.lemma_wf();
        }
        let mins = self.relative_mins();
        if rel.x < mins.x || rel.y < mins.y || rel.z < mins.z {
            return None;
        }
        let maxs = self.relative_maxs();
        if rel.x >= maxs.x || rel.y >= maxs.y || rel.z >= maxs.z {
            return None;
        }
        let abs = self.center + rel;
        let d = self.dims();
        let ijk = V3 {
            x: ring_place(abs.0.x, d.x as i32),
            y: ring_place(abs.0.y, d.y as i32),
            z: ring_place(abs.0.z, d.z as i32),
        };
        Some(ijk)
    }

    /// The slot index of `abs`, if `abs` lies in the window.
    pub fn abs_to_ijk(&self, abs: Coords) -> (r: Option<V3usize>)
        requires
            self.ringed(),
        ensures
            match r {
                Some(ijk) => {
                    &&& self@.has(abs)
                    &&& ijk.ints() == wrap3(self@.width, abs.0.ints())
                    &&& inside(self@.dims(), ijk.ints())
                    &&& rank(self@.dims(), ijk.ints()) == self@.index_of(abs)
                },
                None => !self@.has(abs),
            },
    {
        proof {
            self.lemma_wf();
        }
        let mins = self.relative_mins();
        let maxs = self.relative_maxs();
        let rx = abs.0.x as i64 - self.center.0.x as i64;
        let ry = abs.0.y as i64 - self.center.0.y as i64;
        let rz = abs.0.z as i64 - self.center.0.z as i64;
        if rx < mins.x as i64 || ry < mins.y as i64 || rz < mins.z as i64 {
            return None;
        }
        if rx >= maxs.x as i64 || ry >= maxs.y as i64 || rz >= maxs.z as i64 {
            return None;
        }
        self.rel_to_ijk(V3 { x: rx as i32, y: ry as i32, z: rz as i32 })
    }
}

impl<T> Stage<T> {
    /// The position among the slots of the slot with index `ijk`.
    fn slot_index(&self, ijk: V3usize) -> (index: usize)
        requires
            self.ringed(),
            inside(self@.dims(), ijk.ints()),
        ensures
            index == rank(self@.dims(), ijk.ints()),
            index < self@.slots.len(),
    {
        array3d::Dims::flat_index(&self.array.dims, ijk)
    }

    /// Every coordinate of the window, in row-major order.
    pub fn absolute_coords_iter(&self) -> (r: Vec<Coords>)
        requires
            self.ringed(),
        ensures
            r@.len() == cells(self@.dims()),
            forall|n: int| 0 <= n < r@.len() ==> #[trigger] r@[n] == self@.nth(n),
    {
        let ghost v = self@;
        let mut out: Vec<Coords> = Vec::new();
        let mut it = self.relative_coords_iter();
        proof {
            self.lemma_wf();
        }
        loop
            invariant
                self.ringed(),
                v == self@,
                v.wf(),
                it.orig() == (V3 { x: 1 - v.width / 2, y: 1 - v.width / 2, z: 1 - v.width / 2 }),
                widths(it.orig(), it.ends()) == v.dims(),
                box_points(it.orig(), it.ends()).len() == cells(v.dims()),
                0 <= it.position() <= cells(v.dims()),
                out@.len() == it.position(),
                forall|n: int| 0 <= n < out@.len() ==> #[trigger] out@[n] == v.nth(n),
            ensures
                out@.len() == cells(v.dims()),
                forall|n: int| 0 <= n < out@.len() ==> #[trigger] out@[n] == v.nth(n),
            decreases cells(v.dims()) - it.position(),
        {
            let ghost n = it.position();
            match it.next() {
                Some(rel) => {
                    proof {
                        v.lemma_nth(n);
                    }
                    let abs = self.center + rel;
                    out.push(abs);
                },
                None => {
                    break ;
                },
            }
        }
        out
    }

    /// What the stage holds for `abs`.
    pub fn at_absolute(&self, abs: Coords) -> (r: Option<&T>)
        requires
            self.wf(),
        ensures
            match r {
                Some(t) => self@.content(abs) == Some(*t),
                None => self@.content(abs) is None,
            },
    {
        match self.abs_to_ijk(abs) {
            None => None,
            Some(ijk) => {
                let index = self.slot_index(ijk);
                let elem = &self.array.hold[index];
                if elem.coords == abs {
                    match &elem.content {
                        Some(t) => Some(t),
                        None => None,
                    }
                } else {
                    None
                }
            },
        }
    }

    /// What the stage holds for `abs`, to be changed in place.
    pub fn at_absolute_mut(&mut self, abs: Coords) -> (r: Option<&mut T>)
        requires
            old(self).wf(),
        ensures
            final(self).wf(),
            match r {
                Some(t) => {
                    &&& old(self)@.content(abs) == Some(*t)
                    &&& final(self)@.center == old(self)@.center
                    &&& final(self)@.width == old(self)@.width
                    &&& final(self)@.slots == old(self)@.slots.update(
                        old(self)@.index_of(abs),
                        Element { coords: abs, content: Some(*final(t)) },
                    )
                },
                None => {
                    &&& old(self)@.content(abs) is None
                    &&& final(self)@.center == old(self)@.center
                    &&& final(self)@.width == old(self)@.width
                    &&& final(self)@.slots =~= old(self)@.slots
                },
            },
    {
        match self.abs_to_ijk(abs) {
            None => None,
            Some(ijk) => {
                let index = self.slot_index(ijk);
                let elem = &mut self.array.hold[index];
                if elem.coords == abs {
                    match &mut elem.content {
                        Some(t) => Some(t),
                        None => None,
                    }
                } else {
                    None
                }
            },
        }
    }

    /// What the stage holds for the coordinate that lies `rel` from the
    /// centre.
    pub fn at_relative(&self, rel: V3i32) -> (r: Option<&T>)
        requires
            self.wf(),
        ensures
            match r {
                Some(t) => self@.content_rel(rel.ints()) == Some(*t),
                None => self@.content_rel(rel.ints()) is None,
            },
    {
        match self.rel_to_ijk(rel) {
            None => None,
            Some(_) => self.at_absolute(self.center + rel),
        }
    }

    /// What the stage holds for the coordinate that lies `rel` from the
    /// centre, to be changed in place.
    pub fn at_relative_mut(&mut self, rel: V3i32) -> (r: Option<&mut T>)
        requires
            old(self).wf(),
        ensures
            final(self).wf(),
            match r {
                Some(t) => {
                    &&& old(self)@.content_rel(rel.ints()) == Some(*t)
                    &&& final(self)@.center == old(self)@.center
                    &&& final(self)@.width == old(self)@.width
                    &&& final(self)@.slots == old(self)@.slots.update(
                        old(self)@.index_of(old(self)@.at_rel(rel.ints())),
                        Element { coords: old(self)@.at_rel(rel.ints()), content: Some(*final(t)) },
                    )
                },
                None => {
                    &&& old(self)@.content_rel(rel.ints()) is None
                    &&& final(self)@.center == old(self)@.center
                    &&& final(self)@.width == old(self)@.width
                    &&& final(self)@.slots =~= old(self)@.slots
                },
            },
    {
        match self.rel_to_ijk(rel) {
            None => None,
            Some(_) => {
                let abs = self.center + rel;
                self.at_absolute_mut(abs)
            },
        }
    }

    /// Puts `content` in the slot of `abs` and stamps the slot with `abs`.
    /// Gives what the slot held, whatever coordinate that belonged to. Where
    /// `abs` lies outside the window nothing changes and `content` is lost.
    pub fn insert_absolute(&mut self, abs: Coords, content: T) -> (r: Option<T>)
        requires
            old(self).wf(),
        ensures
            final(self).wf(),
            old(self)@.has(abs) ==> r == old(self)@.slot(abs).content && final(self)@ == old(
                self,
            )@.with_slot(abs, Element { coords: abs, content: Some(content) }),
            !old(self)@.has(abs) ==> r is None && final(self)@ == old(self)@,
    {
        match self.abs_to_ijk(abs) {
            None => None,
            Some(ijk) => {
                let index = self.slot_index(ijk);
                proof {
                    self.lemma_wf();
                    self@.lemma_slot_of(abs);
                }
                let mut element = Element { coords: abs, content: Some(content) };
                core::mem::swap(&mut self.array.hold[index], &mut element);
                element.content
            },
        }
    }

    /// Puts `content` in the slot of the coordinate that lies `rel` from the
    /// centre, as `insert_absolute` does.
    pub fn insert_relative(&mut self, rel: V3i32, content: T) -> (r: Option<T>)
        requires
            old(self).wf(),
        ensures
            final(self).wf(),
            old(self)@.content_rel(rel.ints()) is Some ==> r == old(self)@.content_rel(rel.ints()),
            in_window(
                old(self)@.center.0.ints(),
                old(self)@.width,
                sum3(old(self)@.center.0.ints(), rel.ints()),
            ) ==> r == old(self)@.slot(old(self)@.at_rel(rel.ints())).content && final(self)@ == old(
                self,
            )@.with_slot(
                old(self)@.at_rel(rel.ints()),
                Element { coords: old(self)@.at_rel(rel.ints()), content: Some(content) },
            ),
            !in_window(
                old(self)@.center.0.ints(),
                old(self)@.width,
                sum3(old(self)@.center.0.ints(), rel.ints()),
            ) ==> r is None && final(self)@ == old(self)@,
    {
        match self.rel_to_ijk(rel) {
            None => None,
            Some(_) => {
                let abs = self.center + rel;
                self.insert_absolute(abs, content)
            },
        }
    }
}

impl<T> Stage<T> {
    /// Moves the centre to `new_center` and sweeps the window: for each
    /// coordinate of the new window, in row-major order, a slot that holds
    /// nothing is reported as missing, and content that belongs to another
    /// coordinate is taken out of its slot and reported as evicted. A slot
    /// that holds the content of its coordinate is left alone.
    pub fn relocate(&mut self, new_center: Coords) -> (stale: Vec<StaleChunk<T>>)
        requires
            old(self).wf(),
            old(self)@.recentred(new_center).wf(),
        ensures
            final(self).wf(),
            old(self)@.recentred(new_center).swept_to(final(self)@),
            stale@ == old(self)@.recentred(new_center).stale(),
    {
        self.center = new_center;
        let ghost v = self@;
        let mut stale: Vec<StaleChunk<T>> = Vec::new();
        let mut it = self.relative_coords_iter();
        proof {
            self.lemma_wf();
        }
        loop
            invariant
                self.ringed(),
                v.wf(),
                v == old(self)@.recentred(new_center),
                self@.center == v.center,
                self@.width == v.width,
                self@.slots.len() == v.slots.len(),
                it.orig() == (V3 { x: 1 - v.width / 2, y: 1 - v.width / 2, z: 1 - v.width / 2 }),
                widths(it.orig(), it.ends()) == v.dims(),
                box_points(it.orig(), it.ends()).len() == cells(v.dims()),
                0 <= it.position() <= cells(v.dims()),
                stale@ == v.stale_upto(it.position() as nat),
                forall|abs: Coords|
                    v.has(abs) ==> #[trigger] self@.slot(abs) == if v.rank_of(abs) < it.position() {
                        StageView::swept(v.slot(abs), abs)
                    } else {
                        v.slot(abs)
                    },
            ensures
                self.ringed(),
                v.swept_to(self@),
                stale@ == v.stale(),
            decreases cells(v.dims()) - it.position(),
        {
            let ghost n = it.position();
            let ghost before = self@;
            match it.next() {
                Some(rel) => {
                    proof {
                        v.lemma_nth(n);
                        before.lemma_slot_of(v.nth(n));
                    }
                    let abs = self.center + rel;
                    let index = match self.rel_to_ijk(rel) {
                        Some(ijk) => self.slot_index(ijk),
                        None => vstd::pervasive::unreached(),
                    };
                    let ghost found = self.array.hold@[index as int];
                    if self.array.hold[index].content.is_none() {
                        stale.push(StaleChunk::Missing(abs));
                    } else if self.array.hold[index].coords != abs {
                        let old_coords = self.array.hold[index].coords;
                        let mut taken: Option<T> = None;
                        core::mem::swap(&mut self.array.hold[index].content, &mut taken);
                        match taken {
                            Some(value) => {
                                stale.push(
                                    StaleChunk::Evicted { old_coords, new_coords: abs, value },
                                );
                            },
                            None => {
                                assert(false);
                            },
                        }
                    }
                    proof {
                        assert(abs == v.nth(n));
                        assert(index == before.index_of(abs));
                        assert(found == before.slot(abs));
                        assert(found == v.slot(abs));
                        assert(v.stale_upto((n + 1) as nat) == v.stale_upto(n as nat) + v.stale_at(
                            v.nth(n),
                        ));
                        assert(stale@ =~= v.stale_upto(n as nat) + v.stale_at(abs));
                        assert(self@.slots =~= before.slots.update(
                            index as int,
                            StageView::swept(found, abs),
                        ));
                        assert forall|other: Coords| v.has(other) implies #[trigger] self@.slot(
                            other,
                        ) == if v.rank_of(other) < n + 1 {
                            StageView::swept(v.slot(other), other)
                        } else {
                            v.slot(other)
                        } by {
                            before.lemma_slot_of(other);
                            v.lemma_rank_of(other);
                            v.lemma_rank_of(abs);
                            if other != abs {
                                assert(before.index_of(other) != before.index_of(abs));
                            }
                        }
                    }
                },
                None => {
                    proof {
                        assert forall|abs: Coords| v.has(abs) implies #[trigger] self@.slot(abs)
                            == StageView::swept(v.slot(abs), abs) by {
                            v.lemma_rank_of(abs);
                        }
                    }
                    break ;
                },
            }
        }
        proof {
            self.lemma_wf();
            let now = self@;
            if now.width > 0 {
                now.lemma_window_slots();
            }
            assert forall|f: int|
                0 <= f < now.slots.len() && (#[trigger] now.slots[f]).content is Some implies now.slots[f].coords
                == now.owner(f) by {
                let abs = now.owner(f);
                assert(v.has(abs));
                assert(now.slot(abs) == StageView::swept(v.slot(abs), abs));
            }
        }
        stale
    }
}

} // verus!
