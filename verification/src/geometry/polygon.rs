//! Closed rings: their area and bounds, cutting one along a line, and joining
//! the holes of an area to its outer ring.
use vstd::prelude::*;
use crate::geometry::Point;
use crate::geometry::arith::{
    abs, interpolate, interpolate_at, lemma_interpolate_between, lemma_interpolate_symmetric,
};
use crate::geometry::bbox::BBox;

verus! {

/// One of the two coordinates.
#[derive(Clone, Copy, Debug, PartialEq, Eq, Structural)]
pub enum Axis {
    X,
    Y,
}

/// The coordinate of `p` along `axis`.
pub open spec fn coord(p: Point, axis: Axis) -> int {
    match axis {
        Axis::X => p.x as int,
        Axis::Y => p.y as int,
    }
}

/// The position before `i` in a closed ring of `len` points.
pub open spec fn prev_index(len: int, i: int) -> int {
    if i == 0 {
        len - 1
    } else {
        i - 1
    }
}

/// Twice the signed area of the triangle between the origin, `a` and `b`.
pub open spec fn cross(a: Point, b: Point) -> int {
    a.x * b.y - b.x * a.y
}

/// The sum of [`cross`] over the first `n` edges of the closed ring, where
/// edge `i` leads to point `i` from the point before it.
pub open spec fn doubled_area_upto(ring: Seq<Point>, n: nat) -> int
    decreases n,
{
    if n == 0 {
        0
    } else {
        doubled_area_upto(ring, (n - 1) as nat) + cross(
            ring[prev_index(ring.len() as int, n - 1)],
            ring[n - 1],
        )
    }
}

/// Twice the signed area that the closed ring encloses: positive where the
/// ring turns from the x axis towards the y axis, negative where it turns the
/// other way.
pub open spec fn doubled_area(ring: Seq<Point>) -> int {
    doubled_area_upto(ring, ring.len())
}

/// Computes [`cross`].
fn cross_of(a: Point, b: Point) -> (r: i128)
    ensures
        r == cross(a, b),
        -0x8000_0000_0000_0000 <= r <= 0x8000_0000_0000_0000,
{
    proof {
        assert(-0x4000_0000_0000_0000 <= a.x * b.y <= 0x4000_0000_0000_0000) by (nonlinear_arith)
            requires
                -0x8000_0000 <= a.x <= 0x8000_0000,
                -0x8000_0000 <= b.y <= 0x8000_0000,
        ;
        assert(-0x4000_0000_0000_0000 <= b.x * a.y <= 0x4000_0000_0000_0000) by (nonlinear_arith)
            requires
                -0x8000_0000 <= b.x <= 0x8000_0000,
                -0x8000_0000 <= a.y <= 0x8000_0000,
        ;
    }
    a.x as i128 * b.y as i128 - b.x as i128 * a.y as i128
}

/// Computes [`doubled_area`].
pub fn doubled_area_of(ring: &[Point]) -> (area: i128)
    ensures
        area == doubled_area(ring@),
{
    let n = ring.len();
    if n == 0 {
        return 0;
    }
    let mut area: i128 = 0;
    let mut prev = ring[n - 1];
    let mut i: usize = 0;
    while i < n
        invariant
            i <= n,
            n == ring@.len(),
            n > 0,
            prev == ring@[prev_index(n as int, i as int)],
            area == doubled_area_upto(ring@, i as nat),
            -0x8000_0000_0000_0000 * i <= area <= 0x8000_0000_0000_0000 * i,
        decreases n - i,
    {
        let cur = ring[i];
        let term = cross_of(prev, cur);
        proof {
            assert(0x8000_0000_0000_0000 * (i + 1) <= 0x8000_0000_0000_0000 * 0xffff_ffff_ffff_ffff)
                by (nonlinear_arith)
                requires
                    i + 1 <= 0xffff_ffff_ffff_ffff,
            ;
            assert(0x8000_0000_0000_0000 * (i + 1) == 0x8000_0000_0000_0000 * i
                + 0x8000_0000_0000_0000) by (nonlinear_arith);
        }
        area = area + term;
        prev = cur;
        i = i + 1;
    }
    area
}

/// The smallest box that holds every point of a ring of one or more points.
pub open spec fn bounds(ring: Seq<Point>) -> BBox
    decreases ring.len(),
{
    if ring.len() <= 1 {
        BBox { min: ring[0], max: ring[0] }
    } else {
        let b = bounds(ring.drop_last());
        let p = ring.last();
        BBox {
            min: Point { x: if p.x < b.min.x { p.x } else { b.min.x }, y: if p.y < b.min.y { p.y } else { b.min.y } },
            max: Point { x: if p.x > b.max.x { p.x } else { b.max.x }, y: if p.y > b.max.y { p.y } else { b.max.y } },
        }
    }
}

/// The bounds of a ring hold each of its points.
pub proof fn lemma_bounds_hold(ring: Seq<Point>)
    requires
        ring.len() > 0,
    ensures
        bounds(ring).contains_all(ring),
        bounds(ring).wf(),
    decreases ring.len(),
{
    if ring.len() > 1 {
        lemma_bounds_hold(ring.drop_last());
        let b = bounds(ring.drop_last());
        assert forall|i: int| 0 <= i < ring.len() implies bounds(ring).contains(#[trigger] ring[i]) by {
            if i < ring.len() - 1 {
                assert(ring[i] == ring.drop_last()[i]);
                assert(b.contains(ring.drop_last()[i]));
            }
        }
    }
}

/// The bounds of a ring lie within every box that holds each of its points.
pub proof fn lemma_bounds_least(ring: Seq<Point>, b: BBox)
    requires
        ring.len() > 0,
        b.contains_all(ring),
    ensures
        b.contains(bounds(ring).min),
        b.contains(bounds(ring).max),
    decreases ring.len(),
{
    assert(b.contains(ring[0]));
    if ring.len() > 1 {
        assert forall|i: int| 0 <= i < ring.drop_last().len() implies b.contains(
            #[trigger] ring.drop_last()[i],
        ) by {
            assert(ring.drop_last()[i] == ring[i]);
        }
        lemma_bounds_least(ring.drop_last(), b);
        assert(b.contains(ring[ring.len() - 1]));
    }
}

/// Computes [`bounds`].
pub fn bounds_of(ring: &[Point]) -> (b: BBox)
    requires
        ring@.len() > 0,
    ensures
        b == bounds(ring@),
{
    let n = ring.len();
    let mut b = BBox { min: ring[0], max: ring[0] };
    let mut i: usize = 1;
    assert(ring@.subrange(0, 1).len() == 1);
    assert(ring@.subrange(0, 1)[0] == ring@[0]);
    while i < n
        invariant
            1 <= i <= n,
            n == ring@.len(),
            b == bounds(ring@.subrange(0, i as int)),
        decreases n - i,
    {
        let p = ring[i];
        proof {
            let next = ring@.subrange(0, i + 1);
            assert(next.drop_last() =~= ring@.subrange(0, i as int));
            assert(next.last() == p);
        }
        b = BBox {
            min: Point { x: if p.x < b.min.x { p.x } else { b.min.x }, y: if p.y < b.min.y { p.y } else { b.min.y } },
            max: Point { x: if p.x > b.max.x { p.x } else { b.max.x }, y: if p.y > b.max.y { p.y } else { b.max.y } },
        };
        i = i + 1;
    }
    assert(ring@.subrange(0, n as int) =~= ring@);
    b
}

/// `p` lies on the side of the line at `bound` that is kept: the side of the
/// smaller coordinates where `low` holds, else that of the larger. A point on
/// the line lies on both sides.
pub open spec fn kept(p: Point, axis: Axis, bound: int, low: bool) -> bool {
    if low {
        coord(p, axis) <= bound
    } else {
        coord(p, axis) >= bound
    }
}

/// The point at which the segment between `a` and `b` meets the line at
/// `bound`. Its coordinate along `axis` is `bound`; the other is rounded down.
pub open spec fn cut_point(a: Point, b: Point, axis: Axis, bound: int) -> Point {
    match axis {
        Axis::X => Point {
            x: bound as i32,
            y: interpolate(a.x as int, a.y as int, b.x as int, b.y as int, bound) as i32,
        },
        Axis::Y => Point {
            x: interpolate(a.y as int, a.x as int, b.y as int, b.x as int, bound) as i32,
            y: bound as i32,
        },
    }
}

/// An edge meets a line at the same point in both of its directions.
pub proof fn lemma_cut_point_symmetric(a: Point, b: Point, axis: Axis, bound: int)
    requires
        coord(a, axis) <= bound <= coord(b, axis) || coord(b, axis) <= bound <= coord(a, axis),
        coord(a, axis) != coord(b, axis),
    ensures
        cut_point(a, b, axis, bound) == cut_point(b, a, axis, bound),
{
    match axis {
        Axis::X => {
            lemma_interpolate_symmetric(a.x as int, a.y as int, b.x as int, b.y as int, bound);
        },
        Axis::Y => {
            lemma_interpolate_symmetric(a.y as int, a.x as int, b.y as int, b.x as int, bound);
        },
    }
}

/// What the edge that leads to point `i` of the ring adds to the ring that is
/// cut along the line: the point itself where it is kept, and before it the
/// point at which the edge meets the line where only one of its ends is kept.
pub open spec fn edge_output(ring: Seq<Point>, axis: Axis, bound: int, low: bool, i: int) -> Seq<Point> {
    let cur = ring[i];
    let prev = ring[prev_index(ring.len() as int, i)];
    if kept(cur, axis, bound, low) {
        if kept(prev, axis, bound, low) {
            seq![cur]
        } else {
            seq![cut_point(prev, cur, axis, bound), cur]
        }
    } else if kept(prev, axis, bound, low) {
        seq![cut_point(prev, cur, axis, bound)]
    } else {
        Seq::empty()
    }
}

/// What the first `n` edges of the ring add to the ring that is cut.
pub open spec fn clipped_upto(ring: Seq<Point>, axis: Axis, bound: int, low: bool, n: nat) -> Seq<Point>
    decreases n,
{
    if n == 0 {
        Seq::empty()
    } else {
        clipped_upto(ring, axis, bound, low, (n - 1) as nat) + edge_output(ring, axis, bound, low, n - 1)
    }
}

/// The part of the closed ring on one side of the line at `bound`, as a
/// closed ring: the points of the kept side in their order, with the points
/// at which the ring passes through the line between them.
pub open spec fn clipped(ring: Seq<Point>, axis: Axis, bound: int, low: bool) -> Seq<Point> {
    clipped_upto(ring, axis, bound, low, ring.len())
}

/// A ring that lies on the kept side of the line is left as it is.
pub proof fn lemma_clipped_all_kept(ring: Seq<Point>, axis: Axis, bound: int, low: bool)
    requires
        forall|i: int| 0 <= i < ring.len() ==> kept(#[trigger] ring[i], axis, bound, low),
    ensures
        clipped(ring, axis, bound, low) == ring,
{
    lemma_clipped_all_kept_upto(ring, axis, bound, low, ring.len());
    assert(ring.subrange(0, ring.len() as int) =~= ring);
}

proof fn lemma_clipped_all_kept_upto(ring: Seq<Point>, axis: Axis, bound: int, low: bool, n: nat)
    requires
        forall|i: int| 0 <= i < ring.len() ==> kept(#[trigger] ring[i], axis, bound, low),
        n <= ring.len(),
    ensures
        clipped_upto(ring, axis, bound, low, n) == ring.subrange(0, n as int),
    decreases n,
{
    if n == 0 {
        assert(ring.subrange(0, 0) =~= Seq::<Point>::empty());
    } else {
        lemma_clipped_all_kept_upto(ring, axis, bound, low, (n - 1) as nat);
        assert(kept(ring[n - 1], axis, bound, low));
        assert(kept(ring[prev_index(ring.len() as int, n - 1)], axis, bound, low));
        assert(ring.subrange(0, n as int) =~= ring.subrange(0, n - 1) + seq![ring[n - 1]]);
    }
}

/// Of a ring that lies wholly beyond the line nothing is left.
pub proof fn lemma_clipped_none_kept(ring: Seq<Point>, axis: Axis, bound: int, low: bool)
    requires
        forall|i: int| 0 <= i < ring.len() ==> !kept(#[trigger] ring[i], axis, bound, low),
    ensures
        clipped(ring, axis, bound, low) == Seq::<Point>::empty(),
{
    lemma_clipped_none_kept_upto(ring, axis, bound, low, ring.len());
}

proof fn lemma_clipped_none_kept_upto(ring: Seq<Point>, axis: Axis, bound: int, low: bool, n: nat)
    requires
        forall|i: int| 0 <= i < ring.len() ==> !kept(#[trigger] ring[i], axis, bound, low),
        n <= ring.len(),
    ensures
        clipped_upto(ring, axis, bound, low, n) == Seq::<Point>::empty(),
    decreases n,
{
    if n > 0 {
        lemma_clipped_none_kept_upto(ring, axis, bound, low, (n - 1) as nat);
        assert(!kept(ring[n - 1], axis, bound, low));
        assert(!kept(ring[prev_index(ring.len() as int, n - 1)], axis, bound, low));
        assert(clipped_upto(ring, axis, bound, low, n) =~= Seq::<Point>::empty());
    }
}

/// The point at which an edge meets a line that parts its ends lies on the
/// line, and in every box that holds both ends.
pub proof fn lemma_cut_point_within(a: Point, b: Point, axis: Axis, bound: int, within: BBox)
    requires
        coord(a, axis) <= bound <= coord(b, axis) || coord(b, axis) <= bound <= coord(a, axis),
        coord(a, axis) != coord(b, axis),
        within.contains(a),
        within.contains(b),
    ensures
        coord(cut_point(a, b, axis, bound), axis) == bound,
        within.contains(cut_point(a, b, axis, bound)),
{
    match axis {
        Axis::X => {
            lemma_interpolate_between(a.x as int, a.y as int, b.x as int, b.y as int, bound);
        },
        Axis::Y => {
            lemma_interpolate_between(a.y as int, a.x as int, b.y as int, b.x as int, bound);
        },
    }
}

/// Every point of a ring that was cut along a line lies on the kept side of
/// that line, and in every box that holds the ring.
pub proof fn lemma_clipped_within(ring: Seq<Point>, axis: Axis, bound: int, low: bool, within: BBox)
    requires
        within.contains_all(ring),
    ensures
        within.contains_all(clipped(ring, axis, bound, low)),
        forall|j: int|
            0 <= j < clipped(ring, axis, bound, low).len() ==> kept(
                #[trigger] clipped(ring, axis, bound, low)[j],
                axis,
                bound,
                low,
            ),
{
    lemma_clipped_within_upto(ring, axis, bound, low, within, ring.len());
}

proof fn lemma_clipped_within_upto(ring: Seq<Point>, axis: Axis, bound: int, low: bool, within: BBox, n: nat)
    requires
        within.contains_all(ring),
        n <= ring.len(),
    ensures
        within.contains_all(clipped_upto(ring, axis, bound, low, n)),
        forall|j: int|
            0 <= j < clipped_upto(ring, axis, bound, low, n).len() ==> kept(
                #[trigger] clipped_upto(ring, axis, bound, low, n)[j],
                axis,
                bound,
                low,
            ),
    decreases n,
{
    if n > 0 {
        lemma_clipped_within_upto(ring, axis, bound, low, within, (n - 1) as nat);
        let before = clipped_upto(ring, axis, bound, low, (n - 1) as nat);
        let added = edge_output(ring, axis, bound, low, n - 1);
        let cur = ring[n - 1];
        let prev = ring[prev_index(ring.len() as int, n - 1)];
        assert(within.contains(cur));
        assert(within.contains(prev));
        if kept(cur, axis, bound, low) != kept(prev, axis, bound, low) {
            lemma_cut_point_within(prev, cur, axis, bound, within);
        }
        assert forall|j: int| 0 <= j < added.len() implies within.contains(#[trigger] added[j]) && kept(
            added[j],
            axis,
            bound,
            low,
        ) by {}
        let all = clipped_upto(ring, axis, bound, low, n);
        assert forall|j: int| 0 <= j < all.len() implies within.contains(#[trigger] all[j]) && kept(
            all[j],
            axis,
            bound,
            low,
        ) by {
            if j < before.len() {
                assert(all[j] == before[j]);
            } else {
                assert(all[j] == added[j - before.len()]);
            }
        }
    }
}

/// Tests whether `p` lies on the kept side of the line.
fn keeps(p: Point, axis: Axis, bound: i32, low: bool) -> (r: bool)
    ensures
        r == kept(p, axis, bound as int, low),
{
    let c = match axis {
        Axis::X => p.x,
        Axis::Y => p.y,
    };
    if low {
        c <= bound
    } else {
        c >= bound
    }
}

/// Computes [`cut_point`] for an edge whose ends the line parts.
pub fn cut_edge(a: Point, b: Point, axis: Axis, bound: i32) -> (c: Point)
    requires
        coord(a, axis) <= bound <= coord(b, axis) || coord(b, axis) <= bound <= coord(a, axis),
        coord(a, axis) != coord(b, axis),
    ensures
        c == cut_point(a, b, axis, bound as int),
{
    match axis {
        Axis::X => Point { x: bound, y: interpolate_at(a.x, a.y, b.x, b.y, bound) },
        Axis::Y => Point { x: interpolate_at(a.y, a.x, b.y, b.x, bound), y: bound },
    }
}

/// Cuts the closed ring along the line at `bound` and returns the part on the
/// kept side, as [`clipped`] defines it.
pub fn clip_ring(ring: &[Point], axis: Axis, bound: i32, low: bool) -> (out: Vec<Point>)
    ensures
        out@ == clipped(ring@, axis, bound as int, low),
{
    let n = ring.len();
    let mut out: Vec<Point> = Vec::new();
    if n == 0 {
        return out;
    }
    let mut prev = ring[n - 1];
    let mut i: usize = 0;
    while i < n
        invariant
            i <= n,
            n == ring@.len(),
            n > 0,
            prev == ring@[prev_index(n as int, i as int)],
            out@ == clipped_upto(ring@, axis, bound as int, low, i as nat),
        decreases n - i,
    {
        let cur = ring[i];
        let cur_in = keeps(cur, axis, bound, low);
        let prev_in = keeps(prev, axis, bound, low);
        let ghost before = out@;
        if cur_in {
            if !prev_in {
                out.push(cut_edge(prev, cur, axis, bound));
            }
            out.push(cur);
        } else if prev_in {
            out.push(cut_edge(prev, cur, axis, bound));
        }
        assert(out@ =~= before + edge_output(ring@, axis, bound as int, low, i as int));
        prev = cur;
        i = i + 1;
    }
    out
}

/// Both areas are enclosed in the same sense of turning, and neither is
/// empty.
pub open spec fn same_turn(a: int, b: int) -> bool {
    (a > 0 && b > 0) || (a < 0 && b < 0)
}

/// The points of a hole in the order in which the joined ring visits them:
/// backwards where `flip` holds. The walk returns to its first point; where
/// the hole as given does not end with it, that point is added.
pub open spec fn hole_walk(hole: Seq<Point>, flip: bool) -> Seq<Point> {
    let turned = Seq::new(
        hole.len(),
        |j: int|
            if flip {
                hole[hole.len() - 1 - j]
            } else {
                hole[j]
            },
    );
    if turned.last() == turned[0] {
        turned
    } else {
        turned.push(turned[0])
    }
}

/// The ring `outer` with `hole` joined to it: from the last point of `outer`
/// a slit of no width leads to the hole, round it, and back.
pub open spec fn bridged(outer: Seq<Point>, hole: Seq<Point>, flip: bool) -> Seq<Point> {
    outer + hole_walk(hole, flip) + seq![outer.last()]
}

/// The ring `outer` with the first `n` of `holes` joined to it, where `turn`
/// is the doubled area of the outer ring alone. Each hole is walked against
/// the sense in which the outer ring turns. Holes without points are passed
/// over, and nothing is joined to a ring without points.
pub open spec fn combined_upto(outer: Seq<Point>, turn: int, holes: Seq<Seq<Point>>, n: nat) -> Seq<Point>
    decreases n,
{
    if n == 0 {
        outer
    } else {
        let before = combined_upto(outer, turn, holes, (n - 1) as nat);
        let hole = holes[n - 1];
        if hole.len() == 0 || before.len() == 0 {
            before
        } else {
            bridged(before, hole, same_turn(turn, doubled_area(hole)))
        }
    }
}

/// The points of each ring of `rings`.
pub open spec fn ring_views(rings: Seq<Vec<Point>>) -> Seq<Seq<Point>> {
    rings.map_values(|ring: Vec<Point>| ring@)
}

/// The single ring that bounds the area between `outer` and its `holes`.
pub open spec fn combined(outer: Seq<Point>, holes: Seq<Seq<Point>>) -> Seq<Point> {
    combined_upto(outer, doubled_area(outer), holes, holes.len())
}

/// Joining no holes, or none with points, leaves the outer ring as it is.
pub proof fn lemma_combined_without_holes(outer: Seq<Point>, holes: Seq<Seq<Point>>)
    requires
        forall|k: int| 0 <= k < holes.len() ==> (#[trigger] holes[k]).len() == 0,
    ensures
        combined(outer, holes) == outer,
{
    lemma_combined_without_holes_upto(outer, doubled_area(outer), holes, holes.len());
}

proof fn lemma_combined_without_holes_upto(outer: Seq<Point>, turn: int, holes: Seq<Seq<Point>>, n: nat)
    requires
        forall|k: int| 0 <= k < holes.len() ==> (#[trigger] holes[k]).len() == 0,
        n <= holes.len(),
    ensures
        combined_upto(outer, turn, holes, n) == outer,
    decreases n,
{
    if n > 0 {
        lemma_combined_without_holes_upto(outer, turn, holes, (n - 1) as nat);
        assert(holes[n - 1].len() == 0);
    }
}

/// The joined ring begins with the outer ring, and nothing is joined to a
/// ring without points.
pub proof fn lemma_combined_extends(outer: Seq<Point>, turn: int, holes: Seq<Seq<Point>>, n: nat)
    requires
        n <= holes.len(),
    ensures
        combined_upto(outer, turn, holes, n).len() >= outer.len(),
        combined_upto(outer, turn, holes, n).subrange(0, outer.len() as int) == outer,
        outer.len() == 0 ==> combined_upto(outer, turn, holes, n) == outer,
    decreases n,
{
    if n == 0 {
        assert(outer.subrange(0, outer.len() as int) =~= outer);
    } else {
        lemma_combined_extends(outer, turn, holes, (n - 1) as nat);
        let before = combined_upto(outer, turn, holes, (n - 1) as nat);
        let after = combined_upto(outer, turn, holes, n);
        assert(after.subrange(0, outer.len() as int) =~= before.subrange(0, outer.len() as int));
    }
}

/// Joins `holes` to the ring `outer`, so that one ring bounds the area
/// between them: [`combined`]. Holes without points are passed over; no holes
/// leave `outer` as it is.
pub fn combine_rings(outer: &mut Vec<Point>, holes: &[Vec<Point>])
    ensures
        final(outer)@ == combined(old(outer)@, ring_views(holes@)),
        holes@.len() == 0 ==> final(outer)@ == old(outer)@,
        final(outer)@.len() >= old(outer)@.len(),
        final(outer)@.subrange(0, old(outer)@.len() as int) == old(outer)@,
{
    let ghost outer0 = outer@;
    let ghost turn0 = doubled_area(outer0);
    let ghost views = ring_views(holes@);
    proof {
        lemma_combined_extends(outer0, turn0, views, views.len());
    }
    if outer.len() == 0 {
        return ;
    }
    let turn = doubled_area_of(outer.as_slice());
    let count = holes.len();
    let mut k: usize = 0;
    while k < count
        invariant
            k <= count,
            count == holes@.len(),
            outer0.len() > 0,
            turn == turn0,
            views == ring_views(holes@),
            outer@ == combined_upto(outer0, turn0, views, k as nat),
        decreases count - k,
    {
        proof {
            lemma_combined_extends(outer0, turn0, views, k as nat);
        }
        let hole = &holes[k];
        assert(views[k as int] == hole@);
        let m = hole.len();
        if m > 0 {
            let ghost before = outer@;
            let anchor = outer[outer.len() - 1];
            let area = doubled_area_of(hole.as_slice());
            let flip = (turn > 0 && area > 0) || (turn < 0 && area < 0);
            let ghost turned = Seq::new(
                hole@.len(),
                |j: int|
                    if flip {
                        hole@[hole@.len() - 1 - j]
                    } else {
                        hole@[j]
                    },
            );
            let mut j: usize = 0;
            while j < m
                invariant
                    j <= m,
                    m == hole@.len(),
                    turned.len() == m,
                    forall|i: int|
                        0 <= i < m ==> turned[i] == if flip {
                            hole@[m - 1 - i]
                        } else {
                            hole@[i]
                        },
                    outer@ == before + turned.subrange(0, j as int),
                decreases m - j,
            {
                let p = if flip { hole[m - 1 - j] } else { hole[j] };
                outer.push(p);
                assert(outer@ =~= before + turned.subrange(0, j + 1));
                j = j + 1;
            }
            assert(turned.subrange(0, m as int) =~= turned);
            let first = if flip { hole[m - 1] } else { hole[0] };
            let last = if flip { hole[0] } else { hole[m - 1] };
            if !(first.x == last.x && first.y == last.y) {
                outer.push(first);
            }
            outer.push(anchor);
            assert(outer@ =~= bridged(before, hole@, flip));
        }
        k = k + 1;
    }
}

/// The sum of [`cross`] over the first `n` edges of the open line `line`,
/// where edge `i` leads from point `i - 1` to point `i`.
pub open spec fn chain_upto(line: Seq<Point>, n: nat) -> int
    decreases n,
{
    if n == 0 {
        0
    } else {
        chain_upto(line, (n - 1) as nat) + cross(line[n - 1], line[n as int])
    }
}

/// The sum of [`cross`] over all edges of the open line `line`.
pub open spec fn chain(line: Seq<Point>) -> int {
    if line.len() == 0 {
        0
    } else {
        chain_upto(line, (line.len() - 1) as nat)
    }
}

proof fn lemma_area_upto_is_chain(ring: Seq<Point>, n: nat)
    requires
        1 <= n <= ring.len(),
    ensures
        doubled_area_upto(ring, n) == cross(ring.last(), ring[0]) + chain_upto(ring, (n - 1) as nat),
    decreases n,
{
    if n > 1 {
        lemma_area_upto_is_chain(ring, (n - 1) as nat);
    } else {
        assert(doubled_area_upto(ring, 0) == 0);
        assert(chain_upto(ring, 0) == 0);
    }
}

/// The doubled area of a closed ring is the sum over its edges as an open
/// line and the edge that closes it.
pub proof fn lemma_area_is_chain(ring: Seq<Point>)
    requires
        ring.len() > 0,
    ensures
        doubled_area(ring) == chain(ring) + cross(ring.last(), ring[0]),
{
    lemma_area_upto_is_chain(ring, ring.len());
}

proof fn lemma_chain_prefix(first: Seq<Point>, second: Seq<Point>, n: nat)
    requires
        n < first.len(),
    ensures
        chain_upto(first + second, n) == chain_upto(first, n),
    decreases n,
{
    if n > 0 {
        lemma_chain_prefix(first, second, (n - 1) as nat);
    }
}

proof fn lemma_chain_suffix(first: Seq<Point>, second: Seq<Point>, n: nat)
    requires
        first.len() > 0,
        n < second.len(),
    ensures
        chain_upto(first + second, first.len() + n) == chain(first) + cross(first.last(), second[0])
            + chain_upto(second, n),
    decreases n,
{
    let all = first + second;
    let m = first.len();
    assert(all[m as int] == second[0]);
    assert(all[m - 1] == first.last());
    if n == 0 {
        lemma_chain_prefix(first, second, (m - 1) as nat);
    } else {
        lemma_chain_suffix(first, second, (n - 1) as nat);
        assert(all[m as int + n as int] == second[n as int]);
        assert(all[m + n - 1] == second[n - 1]);
    }
}

/// The sum over the edges of two lines laid end to end is the sum over each
/// and the edge between them.
pub proof fn lemma_chain_concat(first: Seq<Point>, second: Seq<Point>)
    requires
        first.len() > 0,
        second.len() > 0,
    ensures
        chain(first + second) == chain(first) + cross(first.last(), second[0]) + chain(second),
{
    lemma_chain_suffix(first, second, (second.len() - 1) as nat);
}

/// The points of `line` in the opposite order.
pub open spec fn turned_back(line: Seq<Point>) -> Seq<Point> {
    Seq::new(line.len(), |j: int| line[line.len() - 1 - j])
}

proof fn lemma_chain_turned_upto(line: Seq<Point>, n: nat)
    requires
        n < line.len(),
    ensures
        chain_upto(turned_back(line), n) == chain_upto(line, (line.len() - 1 - n) as nat) - chain(line),
    decreases n,
{
    if n > 0 {
        lemma_chain_turned_upto(line, (n - 1) as nat);
        let back = turned_back(line);
        let m = line.len();
        assert(back[n - 1] == line[m - n]);
        assert(back[n as int] == line[m - 1 - n]);
        assert(cross(line[m - n], line[m - 1 - n]) == -cross(line[m - 1 - n], line[m - n]));
    }
}

/// Walking a ring backwards turns the sign of its doubled area.
pub proof fn lemma_area_turned(ring: Seq<Point>)
    ensures
        doubled_area(turned_back(ring)) == -doubled_area(ring),
{
    if ring.len() > 0 {
        let back = turned_back(ring);
        lemma_area_is_chain(ring);
        lemma_area_is_chain(back);
        lemma_chain_turned_upto(ring, (ring.len() - 1) as nat);
        assert(back.last() == ring[0]);
        assert(back[0] == ring.last());
        assert(cross(ring[0], ring.last()) == -cross(ring.last(), ring[0]));
    }
}

/// A ring that returns to its first point in the end encloses what it
/// encloses without that return.
pub proof fn lemma_area_closed(ring: Seq<Point>)
    requires
        ring.len() > 0,
    ensures
        doubled_area(ring.push(ring[0])) == doubled_area(ring),
        chain(ring.push(ring[0])) == doubled_area(ring),
{
    let closed = ring.push(ring[0]);
    let end = seq![ring[0]];
    assert(closed =~= ring + end);
    lemma_area_is_chain(ring);
    lemma_area_is_chain(closed);
    lemma_chain_concat(ring, end);
    assert(cross(ring[0], ring[0]) == 0);
}

/// The walk round a hole encloses what the hole encloses, in the opposite
/// sense where it is walked backwards, and returns to its first point.
pub proof fn lemma_hole_walk_area(hole: Seq<Point>, flip: bool)
    requires
        hole.len() > 0,
    ensures
        hole_walk(hole, flip).len() > 0,
        hole_walk(hole, flip).last() == hole_walk(hole, flip)[0],
        chain(hole_walk(hole, flip)) == if flip {
            -doubled_area(hole)
        } else {
            doubled_area(hole)
        },
{
    let turned = Seq::new(
        hole.len(),
        |j: int|
            if flip {
                hole[hole.len() - 1 - j]
            } else {
                hole[j]
            },
    );
    if flip {
        assert(turned =~= turned_back(hole));
        lemma_area_turned(hole);
    } else {
        assert(turned =~= hole);
    }
    lemma_area_is_chain(turned);
    lemma_area_closed(turned);
    assert(cross(turned[0], turned[0]) == 0);
}

/// Joining a hole to a ring adds to the doubled area of the ring that of the
/// hole, as the hole is walked: the slit to the hole and back encloses
/// nothing.
pub proof fn lemma_bridged_area(outer: Seq<Point>, hole: Seq<Point>, flip: bool)
    requires
        outer.len() > 0,
        hole.len() > 0,
    ensures
        doubled_area(bridged(outer, hole, flip)) == doubled_area(outer) + if flip {
            -doubled_area(hole)
        } else {
            doubled_area(hole)
        },
{
    let walk = hole_walk(hole, flip);
    let anchor = seq![outer.last()];
    let joined = bridged(outer, hole, flip);
    lemma_hole_walk_area(hole, flip);
    lemma_chain_concat(outer, walk);
    lemma_chain_concat(outer + walk, anchor);
    lemma_area_is_chain(outer);
    lemma_area_is_chain(joined);
    assert((outer + walk).last() == walk.last());
    assert(joined.last() == outer.last());
    assert(joined[0] == outer[0]);
    assert(cross(outer.last(), walk[0]) == -cross(walk[0], outer.last()));
}

/// A ring that encloses an area encloses no more with one hole joined to it
/// than alone, in the sense in which the ring turns.
pub proof fn lemma_combined_area_with_one_hole(outer: Seq<Point>, hole: Seq<Point>)
    ensures
        doubled_area(outer) > 0 ==> doubled_area(combined(outer, seq![hole])) <= doubled_area(outer),
        doubled_area(outer) < 0 ==> doubled_area(combined(outer, seq![hole])) >= doubled_area(outer),
{
    let turn = doubled_area(outer);
    let holes = seq![hole];
    assert(combined_upto(outer, turn, holes, 0) == outer);
    assert(holes[0] == hole);
    if hole.len() > 0 && outer.len() > 0 {
        lemma_bridged_area(outer, hole, same_turn(turn, doubled_area(hole)));
    }
}

/// A ring with one hole joined to it, which encloses no more than the ring,
/// encloses no more than the ring alone, in whichever sense each turns.
pub proof fn lemma_combined_area_bounded_with_one_hole(outer: Seq<Point>, hole: Seq<Point>)
    requires
        abs(doubled_area(hole)) <= abs(doubled_area(outer)),
    ensures
        abs(doubled_area(combined(outer, seq![hole]))) <= abs(doubled_area(outer)),
{
    let turn = doubled_area(outer);
    let holes = seq![hole];
    assert(combined_upto(outer, turn, holes, 0) == outer);
    assert(holes[0] == hole);
    if hole.len() > 0 && outer.len() > 0 {
        lemma_bridged_area(outer, hole, same_turn(turn, doubled_area(hole)));
    }
}

} // verus!
