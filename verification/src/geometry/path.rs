//! Cutting an open path along the lines of a grid.
//!
//! The path is walked from tile to tile. Wherever it passes from one tile
//! into the next, the piece in the old tile ends and the piece in the new
//! tile begins at one and the same point on the line between them.
use vstd::prelude::*;
use crate::geometry::{Index, Point};
use crate::geometry::arith::{abs, interpolate, interpolate_at};
use crate::geometry::course::{lemma_segment_clear, passes_by};
use crate::geometry::grid::{all_beside, lemma_replay_push, line_at, replay, Event, Grid, GridGeometry};

verus! {

/// A step of the walk along one segment: the tile that is entered, and the
/// point at which the segment passes into it.
#[derive(Clone, Copy, Debug, PartialEq, Eq, Structural)]
pub struct Crossing {
    pub next: Index,
    pub point: Point,
}

/// The number next to `from` on the way to `to`.
pub open spec fn toward(from: i64, to: i64) -> i64 {
    if from < to {
        (from + 1) as i64
    } else if from > to {
        (from - 1) as i64
    } else {
        from
    }
}

/// The number of steps between two tiles, counted along both coordinates.
pub open spec fn distance(a: Index, b: Index) -> nat {
    (abs(a.x - b.x) + abs(a.y - b.y)) as nat
}

/// `cur` lies in the rectangle of tiles between `a` and `b`.
pub open spec fn between(a: Index, cur: Index, b: Index) -> bool {
    &&& a.x <= cur.x <= b.x || b.x <= cur.x <= a.x
    &&& a.y <= cur.y <= b.y || b.y <= cur.y <= a.y
}

/// The vertical line through which a walk leaves the column of `cur` on its
/// way to the column of `tgt`.
pub open spec fn exit_line_x(grid: GridGeometry, cur: Index, tgt: Index) -> int {
    if tgt.x > cur.x {
        grid.line_x(cur.x + 1)
    } else {
        grid.line_x(cur.x as int)
    }
}

/// The horizontal line through which a walk leaves the row of `cur` on its
/// way to the row of `tgt`.
pub open spec fn exit_line_y(grid: GridGeometry, cur: Index, tgt: Index) -> int {
    if tgt.y > cur.y {
        grid.line_y(cur.y + 1)
    } else {
        grid.line_y(cur.y as int)
    }
}

/// On its way from `p` to `q` the segment meets the vertical exit line of
/// `cur` before the horizontal one.
pub open spec fn crosses_x_first(grid: GridGeometry, p: Point, q: Point, cur: Index, tgt: Index) -> bool {
    cur.x != tgt.x && (cur.y == tgt.y || abs(exit_line_x(grid, cur, tgt) - p.x) * abs(q.y - p.y) < abs(
        exit_line_y(grid, cur, tgt) - p.y,
    ) * abs(q.x - p.x))
}

/// On its way from `p` to `q` the segment meets the horizontal exit line of
/// `cur` before the vertical one.
pub open spec fn crosses_y_first(grid: GridGeometry, p: Point, q: Point, cur: Index, tgt: Index) -> bool {
    cur.y != tgt.y && (cur.x == tgt.x || abs(exit_line_y(grid, cur, tgt) - p.y) * abs(q.x - p.x) < abs(
        exit_line_x(grid, cur, tgt) - p.x,
    ) * abs(q.y - p.y))
}

/// Where the segment from `p` to `q` leaves the tile `cur` on its way to the
/// tile `tgt` that owns `q`, and which tile it enters there. The point lies
/// on a line of the grid: its coordinate across that line is exact, the other
/// is rounded down. Where the segment passes through a corner, it enters the
/// tile diagonally opposite.
pub open spec fn crossing(grid: GridGeometry, p: Point, q: Point, cur: Index, tgt: Index) -> Crossing {
    let bx = exit_line_x(grid, cur, tgt);
    let by = exit_line_y(grid, cur, tgt);
    if crosses_x_first(grid, p, q, cur, tgt) {
        Crossing {
            next: Index { x: toward(cur.x, tgt.x), y: cur.y },
            point: Point {
                x: bx as i32,
                y: interpolate(p.x as int, p.y as int, q.x as int, q.y as int, bx) as i32,
            },
        }
    } else if crosses_y_first(grid, p, q, cur, tgt) {
        Crossing {
            next: Index { x: cur.x, y: toward(cur.y, tgt.y) },
            point: Point {
                x: interpolate(p.y as int, p.x as int, q.y as int, q.x as int, by) as i32,
                y: by as i32,
            },
        }
    } else {
        Crossing {
            next: Index { x: toward(cur.x, tgt.x), y: toward(cur.y, tgt.y) },
            point: Point { x: bx as i32, y: by as i32 },
        }
    }
}

/// The callbacks at a crossing from the tile `cur` into the tile `next`: the
/// piece in `cur` ends at `point` and the piece in `next` begins there. A
/// tile outside the grid gets no callback.
pub open spec fn crossing_events(grid: GridGeometry, cur: Index, next: Index, point: Point) -> Seq<Event> {
    let leave = if grid.in_range(cur) {
        seq![Event::PathLeave(cur, point)]
    } else {
        Seq::empty()
    };
    let enter = if grid.in_range(next) {
        seq![Event::PathEnter(next, point)]
    } else {
        Seq::empty()
    };
    leave + enter
}

/// The callbacks of the walk along the segment from `p` to `q`, from the
/// tile `cur` on to the tile `tgt` that owns `q`.
pub open spec fn walk_events(grid: GridGeometry, p: Point, q: Point, cur: Index, tgt: Index) -> Seq<Event>
    decreases distance(cur, tgt),
{
    if cur == tgt {
        Seq::empty()
    } else {
        let c = crossing(grid, p, q, cur, tgt);
        crossing_events(grid, cur, c.next, c.point) + walk_events(grid, p, q, c.next, tgt)
    }
}

/// The callback for the point `q` at which a segment ends: a step, or the end
/// of the piece where `q` is the last point of the path.
pub open spec fn arrival_events(grid: GridGeometry, q: Point, last: bool) -> Seq<Event> {
    if !grid.in_range(grid.lookup(q)) {
        Seq::empty()
    } else if last {
        seq![Event::PathLeave(grid.lookup(q), q)]
    } else {
        seq![Event::PathStep(grid.lookup(q), q)]
    }
}

/// The callbacks for the segment from `p` to `q`.
pub open spec fn segment_events(grid: GridGeometry, p: Point, q: Point, last: bool) -> Seq<Event> {
    walk_events(grid, p, q, grid.lookup(p), grid.lookup(q)) + arrival_events(grid, q, last)
}

/// The callback for the point at which a path begins.
pub open spec fn start_events(grid: GridGeometry, p: Point) -> Seq<Event> {
    if grid.in_range(grid.lookup(p)) {
        seq![Event::PathEnter(grid.lookup(p), p)]
    } else {
        Seq::empty()
    }
}

/// The callbacks for the first `n` segments of a path.
pub open spec fn segments_events(grid: GridGeometry, points: Seq<Point>, n: nat) -> Seq<Event>
    decreases n,
{
    if n == 0 {
        Seq::empty()
    } else {
        segments_events(grid, points, (n - 1) as nat) + segment_events(
            grid,
            points[n - 1],
            points[n as int],
            n == points.len() - 1,
        )
    }
}

/// The callbacks for a whole path of two or more points.
pub open spec fn path_events(grid: GridGeometry, points: Seq<Point>) -> Seq<Event> {
    start_events(grid, points[0]) + segments_events(grid, points, (points.len() - 1) as nat)
}

/// The tile that a crossing enters lies nearer to the target, and still
/// between the tile that owns the start of the segment and the target.
pub proof fn lemma_crossing_advances(grid: GridGeometry, p: Point, q: Point, start: Index, cur: Index, tgt: Index)
    requires
        cur != tgt,
        between(start, cur, tgt),
    ensures
        distance(crossing(grid, p, q, cur, tgt).next, tgt) < distance(cur, tgt),
        between(start, crossing(grid, p, q, cur, tgt).next, tgt),
        between(cur, crossing(grid, p, q, cur, tgt).next, tgt),
{
}

/// Where a segment passes from one tile of the grid into another, the piece
/// in the first tile ends at the very point at which the piece in the second
/// begins.
pub proof fn lemma_crossing_shares_point(grid: GridGeometry, p: Point, q: Point, cur: Index, tgt: Index)
    requires
        cur != tgt,
        grid.in_range(cur),
        grid.in_range(crossing(grid, p, q, cur, tgt).next),
    ensures
        walk_events(grid, p, q, cur, tgt) == seq![
            Event::PathLeave(cur, crossing(grid, p, q, cur, tgt).point),
            Event::PathEnter(
                crossing(grid, p, q, cur, tgt).next,
                crossing(grid, p, q, cur, tgt).point,
            ),
        ] + walk_events(grid, p, q, crossing(grid, p, q, cur, tgt).next, tgt),
{
    let c = crossing(grid, p, q, cur, tgt);
    assert(crossing_events(grid, cur, c.next, c.point) =~= seq![
        Event::PathLeave(cur, c.point),
        Event::PathEnter(c.next, c.point),
    ]);
}

/// A path of two points in two tiles of the grid that share an edge gives
/// four callbacks: it begins in the first tile, ends there at the point at
/// which it meets the edge, begins in the second tile at that very point,
/// and ends there.
pub proof fn lemma_path_between_neighbours(grid: GridGeometry, p: Point, q: Point)
    requires
        grid.in_range(grid.lookup(p)),
        grid.in_range(grid.lookup(q)),
        distance(grid.lookup(p), grid.lookup(q)) == 1,
    ensures
        path_events(grid, seq![p, q]) == seq![
            Event::PathEnter(grid.lookup(p), p),
            Event::PathLeave(grid.lookup(p), crossing(grid, p, q, grid.lookup(p), grid.lookup(q)).point),
            Event::PathEnter(grid.lookup(q), crossing(grid, p, q, grid.lookup(p), grid.lookup(q)).point),
            Event::PathLeave(grid.lookup(q), q),
        ],
{
    let a = grid.lookup(p);
    let b = grid.lookup(q);
    let c = crossing(grid, p, q, a, b);
    let points = seq![p, q];
    lemma_crossing_advances(grid, p, q, a, a, b);
    assert(c.next == b);
    assert(walk_events(grid, p, q, b, b) =~= Seq::<Event>::empty());
    lemma_crossing_shares_point(grid, p, q, a, b);
    assert(segments_events(grid, points, 0) =~= Seq::<Event>::empty());
    assert(points[0] == p && points[1] == q);
    assert(segments_events(grid, points, 1) =~= segment_events(grid, p, q, true));
    assert(path_events(grid, points) =~= seq![
        Event::PathEnter(a, p),
        Event::PathLeave(a, c.point),
        Event::PathEnter(b, c.point),
        Event::PathLeave(b, q),
    ]);
}

/// No tile between `a` and `b` belongs to the grid: both lie on one side of
/// it, or the grid has no tiles.
pub open spec fn beside(grid: GridGeometry, a: Index, b: Index) -> bool {
    ||| a.x < 0 && b.x < 0
    ||| a.x >= grid.size.x && b.x >= grid.size.x
    ||| a.y < 0 && b.y < 0
    ||| a.y >= grid.size.y && b.y >= grid.size.y
}

/// A walk that stays on one side of the grid gives no callbacks.
pub proof fn lemma_walk_beside(grid: GridGeometry, p: Point, q: Point, cur: Index, tgt: Index)
    requires
        beside(grid, cur, tgt),
    ensures
        walk_events(grid, p, q, cur, tgt) == Seq::<Event>::empty(),
    decreases distance(cur, tgt),
{
    if cur != tgt {
        let c = crossing(grid, p, q, cur, tgt);
        lemma_crossing_advances(grid, p, q, cur, cur, tgt);
        lemma_walk_beside(grid, p, q, c.next, tgt);
        assert(crossing_events(grid, cur, c.next, c.point) =~= Seq::<Event>::empty());
        assert(walk_events(grid, p, q, cur, tgt) =~= Seq::<Event>::empty());
    }
}

/// Each segment of the path has both its ends on one side of the grid: left
/// of it, right of it, below it or above it. The side may change from one
/// segment to the next.
pub open spec fn segments_beside(grid: GridGeometry, points: Seq<Point>) -> bool {
    forall|i: int|
        0 <= i < points.len() - 1 ==> beside(grid, #[trigger] grid.lookup(points[i]), grid.lookup(points[i + 1]))
}

proof fn lemma_segments_beside(grid: GridGeometry, points: Seq<Point>, n: nat)
    requires
        segments_beside(grid, points),
        n < points.len(),
    ensures
        segments_events(grid, points, n) == Seq::<Event>::empty(),
    decreases n,
{
    if n > 0 {
        lemma_segments_beside(grid, points, (n - 1) as nat);
        let p = points[n - 1];
        let q = points[n as int];
        assert(beside(grid, grid.lookup(points[n - 1]), grid.lookup(points[n - 1 + 1])));
        lemma_walk_beside(grid, p, q, grid.lookup(p), grid.lookup(q));
        assert(segments_events(grid, points, n) =~= Seq::<Event>::empty());
    }
}

/// A path of which each segment has both its ends on one side of the grid
/// gives no callback at all.
pub proof fn lemma_path_beside(grid: GridGeometry, points: Seq<Point>)
    requires
        points.len() >= 2,
        segments_beside(grid, points),
    ensures
        path_events(grid, points) == Seq::<Event>::empty(),
{
    lemma_segments_beside(grid, points, (points.len() - 1) as nat);
    assert(beside(grid, grid.lookup(points[0]), grid.lookup(points[0int + 1])));
    assert(path_events(grid, points) =~= Seq::<Event>::empty());
}

/// A path whose points all lie on one side of the grid has each of its
/// segments on that side.
pub proof fn lemma_all_beside(grid: GridGeometry, points: Seq<Point>)
    requires
        all_beside(grid, points),
    ensures
        segments_beside(grid, points),
{
    assert forall|i: int| 0 <= i < points.len() - 1 implies beside(
        grid,
        #[trigger] grid.lookup(points[i]),
        grid.lookup(points[i + 1]),
    ) by {
        let a = grid.lookup(points[i]);
        let b = grid.lookup(points[i + 1]);
    }
}

/// The callbacks for a path that stays in one tile: the points after the
/// first and before the last, as steps.
pub open spec fn inner_steps(index: Index, points: Seq<Point>, n: nat) -> Seq<Event>
    decreases n,
{
    if n == 0 {
        Seq::empty()
    } else {
        inner_steps(index, points, (n - 1) as nat).push(Event::PathStep(index, points[n as int]))
    }
}

proof fn lemma_segments_in_one_tile(grid: GridGeometry, points: Seq<Point>, index: Index, n: nat)
    requires
        grid.in_range(index),
        forall|i: int| 0 <= i < points.len() ==> #[trigger] grid.lookup(points[i]) == index,
        n < points.len() - 1,
    ensures
        segments_events(grid, points, n) == inner_steps(index, points, n),
    decreases n,
{
    if n > 0 {
        lemma_segments_in_one_tile(grid, points, index, (n - 1) as nat);
        let p = points[n - 1];
        let q = points[n as int];
        assert(grid.lookup(p) == index && grid.lookup(q) == index);
        assert(segment_events(grid, p, q, false) =~= seq![Event::PathStep(index, q)]);
        assert(segments_events(grid, points, n) =~= inner_steps(index, points, n));
    }
}

/// A path that lies in one tile of the grid gives one `path_enter` with its
/// first point, a `path_step` for each point between, and one `path_leave`
/// with its last point, all for that tile.
pub proof fn lemma_path_in_one_tile(grid: GridGeometry, points: Seq<Point>, index: Index)
    requires
        points.len() >= 2,
        grid.in_range(index),
        forall|i: int| 0 <= i < points.len() ==> #[trigger] grid.lookup(points[i]) == index,
    ensures
        path_events(grid, points) == seq![Event::PathEnter(index, points[0])] + inner_steps(
            index,
            points,
            (points.len() - 2) as nat,
        ) + seq![Event::PathLeave(index, points[points.len() - 1])],
{
    let n = (points.len() - 1) as nat;
    lemma_segments_in_one_tile(grid, points, index, (n - 1) as nat);
    let p = points[n - 1];
    let q = points[n as int];
    assert(grid.lookup(p) == index && grid.lookup(q) == index);
    assert(grid.lookup(points[0]) == index);
    assert(segment_events(grid, p, q, true) =~= seq![Event::PathLeave(index, q)]);
    assert(segments_events(grid, points, n) =~= inner_steps(index, points, (n - 1) as nat) + seq![
        Event::PathLeave(index, q),
    ]);
    assert(path_events(grid, points) =~= seq![Event::PathEnter(index, points[0])] + inner_steps(
        index,
        points,
        (points.len() - 2) as nat,
    ) + seq![Event::PathLeave(index, points[points.len() - 1])]);
}

/// The distance between two coordinates.
fn gap(a: i32, b: i32) -> (d: i128)
    ensures
        d == abs(a - b),
{
    if a >= b {
        a as i128 - b as i128
    } else {
        b as i128 - a as i128
    }
}

/// Computes [`toward`].
fn step_toward(from: i64, to: i64) -> (r: i64)
    ensures
        r == toward(from, to),
{
    if from < to {
        from + 1
    } else if from > to {
        from - 1
    } else {
        from
    }
}

/// The exit lines of the walk lie between the ends of the segment.
proof fn lemma_exit_lines(grid: GridGeometry, p: Point, q: Point, cur: Index, tgt: Index)
    requires
        grid.wf(),
        tgt == grid.lookup(q),
        between(grid.lookup(p), cur, tgt),
    ensures
        cur.x < tgt.x ==> p.x < exit_line_x(grid, cur, tgt) <= q.x,
        cur.x > tgt.x ==> q.x < exit_line_x(grid, cur, tgt) <= p.x,
        cur.y < tgt.y ==> p.y < exit_line_y(grid, cur, tgt) <= q.y,
        cur.y > tgt.y ==> q.y < exit_line_y(grid, cur, tgt) <= p.y,
{
    grid.lemma_lookup_fits(p);
    grid.lemma_lookup_fits(q);
    grid.lemma_column_at_least(p.x as int, cur.x + 1);
    grid.lemma_column_at_least(q.x as int, cur.x + 1);
    grid.lemma_column_at_least(p.x as int, cur.x as int);
    grid.lemma_column_at_least(q.x as int, cur.x as int);
    grid.lemma_row_at_least(p.y as int, cur.y + 1);
    grid.lemma_row_at_least(q.y as int, cur.y + 1);
    grid.lemma_row_at_least(p.y as int, cur.y as int);
    grid.lemma_row_at_least(q.y as int, cur.y as int);
}

/// Computes [`crossing`]: where the segment from `p` to `q` leaves the tile
/// `cur`, and which tile it enters there.
pub fn next_crossing(grid: &GridGeometry, p: Point, q: Point, cur: Index, tgt: Index) -> (c: Crossing)
    requires
        grid.wf(),
        cur != tgt,
        tgt == grid.lookup(q),
        between(grid.lookup(p), cur, tgt),
    ensures
        c == crossing(*grid, p, q, cur, tgt),
        between(grid.lookup(p), c.next, tgt),
        distance(c.next, tgt) < distance(cur, tgt),
        p.x <= c.point.x <= q.x || q.x <= c.point.x <= p.x,
        p.y <= c.point.y <= q.y || q.y <= c.point.y <= p.y,
{
    proof {
        lemma_exit_lines(*grid, p, q, cur, tgt);
        lemma_crossing_advances(*grid, p, q, grid.lookup(p), cur, tgt);
    }
    let line_x: i128 = line_at(grid.origin.x, grid.step.x, if tgt.x > cur.x { cur.x + 1 } else { cur.x });
    let line_y: i128 = line_at(grid.origin.y, grid.step.y, if tgt.y > cur.y { cur.y + 1 } else { cur.y });
    let x_first: bool;
    let y_first: bool;
    if cur.y == tgt.y {
        x_first = true;
        y_first = false;
    } else if cur.x == tgt.x {
        x_first = false;
        y_first = true;
    } else {
        let nx: i128 = gap(line_x as i32, p.x);
        let ny: i128 = gap(line_y as i32, p.y);
        let dx: i128 = gap(q.x, p.x);
        let dy: i128 = gap(q.y, p.y);
        proof {
            assert(0 <= nx * dy <= 0x1_0000_0000 * 0x1_0000_0000) by (nonlinear_arith)
                requires
                    0 <= nx <= 0x1_0000_0000,
                    0 <= dy <= 0x1_0000_0000,
            ;
            assert(0 <= ny * dx <= 0x1_0000_0000 * 0x1_0000_0000) by (nonlinear_arith)
                requires
                    0 <= ny <= 0x1_0000_0000,
                    0 <= dx <= 0x1_0000_0000,
            ;
        }
        let by_x: i128 = nx * dy;
        let by_y: i128 = ny * dx;
        x_first = by_x < by_y;
        y_first = by_y < by_x;
    }
    assert(x_first == crosses_x_first(*grid, p, q, cur, tgt));
    assert(y_first == crosses_y_first(*grid, p, q, cur, tgt));
    if x_first {
        let bx: i32 = line_x as i32;
        let y: i32 = interpolate_at(p.x, p.y, q.x, q.y, bx);
        Crossing { next: Index { x: step_toward(cur.x, tgt.x), y: cur.y }, point: Point { x: bx, y } }
    } else if y_first {
        let by: i32 = line_y as i32;
        let x: i32 = interpolate_at(p.y, p.x, q.y, q.x, by);
        Crossing { next: Index { x: cur.x, y: step_toward(cur.y, tgt.y) }, point: Point { x, y: by } }
    } else {
        Crossing {
            next: Index { x: step_toward(cur.x, tgt.x), y: step_toward(cur.y, tgt.y) },
            point: Point { x: line_x as i32, y: line_y as i32 },
        }
    }
}

/// Computes [`beside`].
fn lies_beside(grid: &GridGeometry, a: Index, b: Index) -> (r: bool)
    ensures
        r == beside(*grid, a, b),
{
    (a.x < 0 && b.x < 0) || (a.x >= grid.size.x && b.x >= grid.size.x) || (a.y < 0 && b.y < 0) || (a.y
        >= grid.size.y && b.y >= grid.size.y)
}

/// A grid without tiles gives no callbacks for any path.
proof fn lemma_path_without_tiles(grid: GridGeometry, points: Seq<Point>)
    requires
        points.len() >= 2,
        grid.size.x <= 0 || grid.size.y <= 0,
    ensures
        path_events(grid, points) == Seq::<Event>::empty(),
{
    if grid.size.x <= 0 {
        assert forall|i: int| 0 <= i < points.len() implies (#[trigger] grid.lookup(points[i])).x < 0
            || grid.lookup(points[i]).x >= grid.size.x by {}
        assert(forall|i: int| 0 <= i < points.len() ==> !grid.in_range(#[trigger] grid.lookup(points[i])));
    }
    lemma_path_silent(grid, points, (points.len() - 1) as nat);
    assert(path_events(grid, points) =~= Seq::<Event>::empty());
}

proof fn lemma_walk_without_tiles(grid: GridGeometry, p: Point, q: Point, cur: Index, tgt: Index)
    requires
        grid.size.x <= 0 || grid.size.y <= 0,
    ensures
        walk_events(grid, p, q, cur, tgt) == Seq::<Event>::empty(),
    decreases distance(cur, tgt),
{
    if cur != tgt {
        let c = crossing(grid, p, q, cur, tgt);
        lemma_crossing_advances(grid, p, q, cur, cur, tgt);
        lemma_walk_without_tiles(grid, p, q, c.next, tgt);
        assert(crossing_events(grid, cur, c.next, c.point) =~= Seq::<Event>::empty());
        assert(walk_events(grid, p, q, cur, tgt) =~= Seq::<Event>::empty());
    }
}

proof fn lemma_path_silent(grid: GridGeometry, points: Seq<Point>, n: nat)
    requires
        grid.size.x <= 0 || grid.size.y <= 0,
        n < points.len(),
    ensures
        segments_events(grid, points, n) == Seq::<Event>::empty(),
    decreases n,
{
    if n > 0 {
        lemma_path_silent(grid, points, (n - 1) as nat);
        let p = points[n - 1];
        let q = points[n as int];
        lemma_walk_without_tiles(grid, p, q, grid.lookup(p), grid.lookup(q));
        assert(segments_events(grid, points, n) =~= Seq::<Event>::empty());
    }
}

/// Cuts the open path `points` along the lines of the grid of `target`, and
/// hands each piece to the tile in which it lies.
///
/// The callbacks are those of [`path_events`], in that order. The target is
/// idle before and after.
pub fn clip_path<G: Grid>(target: &mut G, points: &[Point])
    requires
        old(target).wf(),
        G::idle(old(target).state()),
        points@.len() >= 2,
    ensures
        final(target).wf(),
        final(target).geometry() == old(target).geometry(),
        G::idle(final(target).state()),
        final(target).state() == replay::<G>(
            old(target).state(),
            path_events(old(target).geometry(), points@),
        ),
{
    let ghost grid0 = target.geometry();
    let ghost state0 = target.state();
    proof {
        target.lemma_geometry_wf();
    }
    let range = target.index_range();
    if range.x <= 0 || range.y <= 0 {
        proof {
            lemma_path_without_tiles(grid0, points@);
        }
        return ;
    }
    proof {
        grid0.lemma_tiles_fit(Index { x: 0, y: 0 });
    }
    let home = target.tile_box(Index { x: 0, y: 0 });
    proof {
        grid0.lemma_lines_fit(0);
        grid0.lemma_lines_fit(1);
        assert(0 * (grid0.step.x as int) == 0 && 1 * (grid0.step.x as int) == grid0.step.x);
        assert(0 * (grid0.step.y as int) == 0 && 1 * (grid0.step.y as int) == grid0.step.y);
    }
    let grid = GridGeometry {
        origin: home.min,
        step: Point { x: home.max.x - home.min.x, y: home.max.y - home.min.y },
        size: range,
    };
    assert(grid == grid0);
    let n = points.len();
    let mut cur = target.lookup_point(points[0]);
    let ghost mut done: Seq<Event> = Seq::empty();
    if grid.has_tile(cur) {
        proof {
            lemma_replay_push::<G>(state0, done, Event::PathEnter(cur, points@[0]));
            done = done.push(Event::PathEnter(cur, points@[0]));
        }
        target.path_enter(cur, points[0]);
    }
    assert(done =~= start_events(grid, points@[0]));
    let mut i: usize = 1;
    while i < n
        invariant
            1 <= i <= n,
            n == points@.len(),
            grid == grid0,
            grid.wf(),
            target.wf(),
            target.geometry() == grid,
            cur == grid.lookup(points@[i - 1]),
            target.state() == replay::<G>(state0, done),
            done == start_events(grid, points@[0]) + segments_events(grid, points@, (i - 1) as nat),
            i < n && grid.in_range(cur) ==> G::in_path(target.state(), cur),
            i == n || !grid.in_range(cur) ==> G::idle(target.state()),
        decreases n - i,
    {
        let p = points[i - 1];
        let q = points[i];
        let tgt = target.lookup_point(q);
        let ghost before = done;
        let ghost start = cur;
        if lies_beside(&grid, cur, tgt) {
            // The whole segment lies on one side of the grid.
            proof {
                lemma_walk_beside(grid, p, q, cur, tgt);
                assert(walk_events(grid, p, q, tgt, tgt) =~= Seq::<Event>::empty());
            }
            cur = tgt;
        } else if !grid.has_tile(cur) && passes_by(&grid, p, q) {
            // The segment passes a corner of the grid by.
            proof {
                lemma_segment_clear(grid, p, q);
                assert(walk_events(grid, p, q, tgt, tgt) =~= Seq::<Event>::empty());
            }
            cur = tgt;
        }
        while cur.x != tgt.x || cur.y != tgt.y
            invariant
                grid.wf(),
                target.wf(),
                target.geometry() == grid,
                tgt == grid.lookup(q),
                start == grid.lookup(p),
                between(start, cur, tgt),
                target.state() == replay::<G>(state0, done),
                before + walk_events(grid, p, q, start, tgt) == done + walk_events(grid, p, q, cur, tgt),
                grid.in_range(cur) ==> G::in_path(target.state(), cur),
                !grid.in_range(cur) ==> G::idle(target.state()),
            decreases distance(cur, tgt),
        {
            let c = next_crossing(&grid, p, q, cur, tgt);
            let ghost mid = done;
            if grid.has_tile(cur) {
                proof {
                    lemma_replay_push::<G>(state0, done, Event::PathLeave(cur, c.point));
                    done = done.push(Event::PathLeave(cur, c.point));
                }
                target.path_leave(cur, c.point);
            }
            if grid.has_tile(c.next) {
                proof {
                    lemma_replay_push::<G>(state0, done, Event::PathEnter(c.next, c.point));
                    done = done.push(Event::PathEnter(c.next, c.point));
                }
                target.path_enter(c.next, c.point);
            }
            proof {
                assert(done =~= mid + crossing_events(grid, cur, c.next, c.point));
                assert(mid + walk_events(grid, p, q, cur, tgt) =~= done + walk_events(
                    grid,
                    p,
                    q,
                    c.next,
                    tgt,
                ));
            }
            cur = c.next;
        }
        assert(cur == tgt);
        let ghost mid = done;
        if grid.has_tile(tgt) {
            if i == n - 1 {
                proof {
                    lemma_replay_push::<G>(state0, done, Event::PathLeave(tgt, q));
                    done = done.push(Event::PathLeave(tgt, q));
                }
                target.path_leave(tgt, q);
            } else {
                proof {
                    lemma_replay_push::<G>(state0, done, Event::PathStep(tgt, q));
                    done = done.push(Event::PathStep(tgt, q));
                }
                target.path_step(tgt, q);
            }
        }
        proof {
            assert(done =~= mid + arrival_events(grid, q, i == n - 1));
            assert(mid =~= before + walk_events(grid, p, q, start, tgt));
            assert(done =~= start_events(grid, points@[0]) + segments_events(grid, points@, i as nat));
        }
        i = i + 1;
    }
}

} // verus!
