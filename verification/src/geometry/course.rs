//! That the pieces of a path come one after the other, and that each lies in
//! the tile that it is handed to.
//!
//! A walk along a segment is on course while the lines that it has crossed
//! lie before the lines that it has yet to cross, as the segment meets them.
//! A walk on course leaves each tile through a point on the edge of that
//! tile.
use vstd::prelude::*;
use crate::geometry::{Index, Point};
use crate::geometry::arith::{
    abs, interpolate, lemma_interpolate_at_least, lemma_interpolate_at_most, lemma_interpolate_between,
};
use crate::geometry::grid::{line_at, within_tile, Event, GridGeometry};
use crate::geometry::path::{
    arrival_events, beside, between, crosses_x_first, crosses_y_first, crossing, crossing_events,
    distance, exit_line_x, exit_line_y, lemma_crossing_advances, lemma_walk_beside, path_events,
    segment_events, segments_events, start_events, walk_events,
};

verus! {

/// The event hands a point of a path to a tile of the grid, and the point
/// lies in the box of that tile or on its edges.
pub open spec fn piece_in_tile(grid: GridGeometry, event: Event) -> bool {
    match event {
        Event::PathEnter(index, point) => grid.in_range(index) && within_tile(grid, index, point),
        Event::PathStep(index, point) => grid.in_range(index) && within_tile(grid, index, point),
        Event::PathLeave(index, point) => grid.in_range(index) && within_tile(grid, index, point),
        _ => false,
    }
}

/// Each of the events hands a point of a path to the tile in which it lies.
pub open spec fn pieces_in_tiles(grid: GridGeometry, events: Seq<Event>) -> bool {
    forall|k: int| 0 <= k < events.len() ==> piece_in_tile(grid, #[trigger] events[k])
}

/// The vertical line through which a walk from the column of `start` has
/// come into the column of `cur`.
pub open spec fn entry_line_x(grid: GridGeometry, start: Index, cur: Index) -> int {
    if cur.x > start.x {
        grid.line_x(cur.x as int)
    } else {
        grid.line_x(cur.x + 1)
    }
}

/// The horizontal line through which a walk from the row of `start` has come
/// into the row of `cur`.
pub open spec fn entry_line_y(grid: GridGeometry, start: Index, cur: Index) -> int {
    if cur.y > start.y {
        grid.line_y(cur.y as int)
    } else {
        grid.line_y(cur.y + 1)
    }
}

/// The walk along the segment from `p` to `q` is on course in the tile
/// `cur`: the segment meets the line through which the walk came into the
/// column no later than the line through which it will leave the row, and
/// the line through which it came into the row no later than the line
/// through which it will leave the column.
pub open spec fn on_course(grid: GridGeometry, p: Point, q: Point, cur: Index, tgt: Index) -> bool {
    let start = grid.lookup(p);
    &&& cur.x != start.x && cur.y != tgt.y ==> abs(entry_line_x(grid, start, cur) - p.x) * abs(q.y - p.y)
        <= abs(exit_line_y(grid, cur, tgt) - p.y) * abs(q.x - p.x)
    &&& cur.y != start.y && cur.x != tgt.x ==> abs(entry_line_y(grid, start, cur) - p.y) * abs(q.x - p.x)
        <= abs(exit_line_x(grid, cur, tgt) - p.x) * abs(q.y - p.y)
}

/// A product grows with its first factor where the other is not negative.
proof fn lemma_product_ordered(a: int, b: int, c: int)
    requires
        a <= b,
        c >= 0,
    ensures
        a * c <= b * c,
{
    assert(a * c <= b * c) by (nonlinear_arith)
        requires
            a <= b,
            c >= 0,
    ;
}

/// Where a line of the grid lies between the columns of two points, it lies
/// between the points.
proof fn lemma_line_between_x(grid: GridGeometry, p: Point, q: Point, k: int)
    requires
        grid.wf(),
    ensures
        grid.lookup(p).x < k <= grid.lookup(q).x ==> p.x < grid.line_x(k) <= q.x,
        grid.lookup(q).x < k <= grid.lookup(p).x ==> q.x < grid.line_x(k) <= p.x,
{
    grid.lemma_lookup_fits(p);
    grid.lemma_lookup_fits(q);
    grid.lemma_column_at_least(p.x as int, k);
    grid.lemma_column_at_least(q.x as int, k);
}

/// Where a line of the grid lies between the rows of two points, it lies
/// between the points.
proof fn lemma_line_between_y(grid: GridGeometry, p: Point, q: Point, k: int)
    requires
        grid.wf(),
    ensures
        grid.lookup(p).y < k <= grid.lookup(q).y ==> p.y < grid.line_y(k) <= q.y,
        grid.lookup(q).y < k <= grid.lookup(p).y ==> q.y < grid.line_y(k) <= p.y,
{
    grid.lemma_lookup_fits(p);
    grid.lemma_lookup_fits(q);
    grid.lemma_row_at_least(p.y as int, k);
    grid.lemma_row_at_least(q.y as int, k);
}

/// Where a segment is cut at a line across one coordinate, the other
/// coordinate of the cut lies in the band between `lo` and `hi`, given that
/// the segment meets the line through which it came into the band no later
/// than the cut, and the line through which it leaves the band no earlier.
///
/// The segment leads from `(a0, b0)` to `(a1, b1)` and is cut at `a`. It has
/// come into the band through `b_in` unless it began there, and leaves it
/// through `b_out` unless it ends there.
proof fn lemma_cut_in_band(
    a0: int,
    b0: int,
    a1: int,
    b1: int,
    a: int,
    lo: int,
    hi: int,
    began: bool,
    ends: bool,
    b_in: int,
    b_out: int,
)
    requires
        a0 != a1,
        a0 <= a <= a1 || a1 <= a <= a0,
        lo < hi,
        began ==> lo <= b0 < hi,
        ends ==> lo <= b1 < hi,
        !began ==> (b0 < lo && b_in == lo && b1 >= lo) || (b0 >= hi && b_in == hi && b1 < hi),
        !ends ==> (b1 >= hi && b_out == hi && b0 < hi) || (b1 < lo && b_out == lo && b0 >= lo),
        !began ==> abs(b_in - b0) * abs(a1 - a0) <= abs(a - a0) * abs(b1 - b0),
        !ends ==> abs(a - a0) * abs(b1 - b0) <= abs(b_out - b0) * abs(a1 - a0),
    ensures
        lo <= interpolate(a0, b0, a1, b1, a) <= hi,
{
    let n = abs(a - a0);
    let d = abs(a1 - a0);
    let h = b1 - b0;
    lemma_interpolate_between(a0, b0, a1, b1, a);
    assert(abs(a - a0) * abs(b1 - b0) == abs(b1 - b0) * abs(a - a0)) by (nonlinear_arith);
    if h >= 0 {
        assert(abs(b1 - b0) == h);
        if !began && b0 < lo {
            assert(abs(b_in - b0) == lo - b0);
            lemma_interpolate_at_least(a0, b0, a1, b1, a, lo);
        }
        if !ends && b1 >= hi {
            assert(abs(b_out - b0) == hi - b0);
            lemma_interpolate_at_most(a0, b0, a1, b1, a, hi);
        }
    } else {
        assert(abs(b1 - b0) == -h);
        assert(h * n == -((-h) * n)) by (nonlinear_arith);
        if !began && b0 >= hi {
            assert(abs(b_in - b0) == b0 - hi);
            assert((hi - b0) * d == -((b0 - hi) * d)) by (nonlinear_arith);
            lemma_interpolate_at_most(a0, b0, a1, b1, a, hi);
        }
        if !ends && b1 < lo {
            assert(abs(b_out - b0) == b0 - lo);
            assert((lo - b0) * d == -((b0 - lo) * d)) by (nonlinear_arith);
            lemma_interpolate_at_least(a0, b0, a1, b1, a, lo);
        }
    }
}

/// The same as [`lemma_cut_in_band`] of the cut before it is rounded: the
/// exact cut lies in the band.
proof fn lemma_exact_cut_in_band(
    a0: int,
    b0: int,
    a1: int,
    b1: int,
    a: int,
    lo: int,
    hi: int,
    began: bool,
    ends: bool,
    b_in: int,
    b_out: int,
)
    requires
        a0 != a1,
        a0 <= a <= a1 || a1 <= a <= a0,
        lo < hi,
        began ==> lo <= b0 < hi,
        ends ==> lo <= b1 < hi,
        !began ==> (b0 < lo && b_in == lo && b1 >= lo) || (b0 >= hi && b_in == hi && b1 < hi),
        !ends ==> (b1 >= hi && b_out == hi && b0 < hi) || (b1 < lo && b_out == lo && b0 >= lo),
        !began ==> abs(b_in - b0) * abs(a1 - a0) <= abs(a - a0) * abs(b1 - b0),
        !ends ==> abs(a - a0) * abs(b1 - b0) <= abs(b_out - b0) * abs(a1 - a0),
    ensures
        (lo - b0) * abs(a1 - a0) <= (b1 - b0) * abs(a - a0) <= (hi - b0) * abs(a1 - a0),
{
    let n = abs(a - a0);
    let d = abs(a1 - a0);
    let h = b1 - b0;
    assert(0 <= n <= d);
    assert(n * abs(h) == abs(h) * n) by (nonlinear_arith);
    lemma_product_ordered(n, d, abs(h));
    assert(abs(h) * d == d * abs(h)) by (nonlinear_arith);
    if h >= 0 {
        assert(h * n == abs(h) * n);
        assert(0 <= h * n) by (nonlinear_arith)
            requires
                h >= 0,
                n >= 0,
        ;
        if began {
            lemma_product_ordered(lo - b0, 0, d);
        } else {
            assert(abs(b_in - b0) == lo - b0);
        }
        if ends {
            lemma_product_ordered(h, hi - b0, d);
            assert(h * d == d * h) by (nonlinear_arith);
        } else {
            assert(abs(b_out - b0) == hi - b0);
        }
    } else {
        assert(h * n == -(abs(h) * n)) by (nonlinear_arith)
            requires
                abs(h) == -h,
        ;
        assert(0 <= abs(h) * n) by (nonlinear_arith)
            requires
                abs(h) >= 0,
                n >= 0,
        ;
        if began {
            lemma_product_ordered(0, hi - b0, d);
        } else {
            assert(abs(b_in - b0) == b0 - hi);
            assert((hi - b0) * d == -((b0 - hi) * d)) by (nonlinear_arith);
        }
        if ends {
            lemma_product_ordered(lo - b0, h, d);
            assert(h * d == -(d * abs(h))) by (nonlinear_arith)
                requires
                    abs(h) == -h,
            ;
        } else {
            assert(abs(b_out - b0) == b0 - lo);
            assert((lo - b0) * d == -((b0 - lo) * d)) by (nonlinear_arith);
        }
    }
}

/// A walk on course leaves its tile through a point on the edge of that
/// tile, which is an edge of the tile that it enters too, and is on course
/// there.
pub proof fn lemma_crossing_within(grid: GridGeometry, p: Point, q: Point, cur: Index, tgt: Index)
    requires
        grid.wf(),
        cur != tgt,
        tgt == grid.lookup(q),
        between(grid.lookup(p), cur, tgt),
        on_course(grid, p, q, cur, tgt),
    ensures
        within_tile(grid, cur, crossing(grid, p, q, cur, tgt).point),
        within_tile(grid, crossing(grid, p, q, cur, tgt).next, crossing(grid, p, q, cur, tgt).point),
        on_course(grid, p, q, crossing(grid, p, q, cur, tgt).next, tgt),
{
    let start = grid.lookup(p);
    let c = crossing(grid, p, q, cur, tgt);
    let bx = exit_line_x(grid, cur, tgt);
    let by = exit_line_y(grid, cur, tgt);
    let dx = abs(q.x - p.x);
    let dy = abs(q.y - p.y);
    grid.lemma_lookup_fits(p);
    grid.lemma_lookup_fits(q);
    grid.lemma_column_bounds(p.x as int);
    grid.lemma_column_bounds(q.x as int);
    grid.lemma_row_bounds(p.y as int);
    grid.lemma_row_bounds(q.y as int);
    grid.lemma_lines_ordered(cur.x as int, cur.x + 1);
    grid.lemma_lines_ordered(cur.y as int, cur.y + 1);
    grid.lemma_lines_ordered(cur.x + 1, cur.x + 2);
    grid.lemma_lines_ordered(cur.y + 1, cur.y + 2);
    grid.lemma_lines_ordered(cur.x - 1, cur.x as int);
    grid.lemma_lines_ordered(cur.y - 1, cur.y as int);
    lemma_line_between_x(grid, p, q, cur.x as int);
    lemma_line_between_x(grid, p, q, cur.x + 1);
    lemma_line_between_x(grid, p, q, cur.x + 2);
    lemma_line_between_x(grid, p, q, cur.x - 1);
    lemma_line_between_y(grid, p, q, cur.y as int);
    lemma_line_between_y(grid, p, q, cur.y + 1);
    lemma_line_between_y(grid, p, q, cur.y + 2);
    lemma_line_between_y(grid, p, q, cur.y - 1);
    lemma_crossing_advances(grid, p, q, start, cur, tgt);
    let ex = entry_line_x(grid, start, cur);
    let ey = entry_line_y(grid, start, cur);
    let nx = entry_line_x(grid, start, c.next);
    let ny = entry_line_y(grid, start, c.next);
    let ox = exit_line_x(grid, c.next, tgt);
    let oy = exit_line_y(grid, c.next, tgt);
    if crosses_x_first(grid, p, q, cur, tgt) {
        lemma_interpolate_between(p.x as int, p.y as int, q.x as int, q.y as int, bx);
        lemma_cut_in_band(
            p.x as int,
            p.y as int,
            q.x as int,
            q.y as int,
            bx,
            grid.line_y(cur.y as int),
            grid.line_y(cur.y + 1),
            cur.y == start.y,
            cur.y == tgt.y,
            ey,
            by,
        );
        assert(nx == bx);
        assert(ny == ey && oy == by);
        if c.next.y != start.y && c.next.x != tgt.x {
            lemma_product_ordered(abs(bx - p.x), abs(ox - p.x), dy);
        }
    } else if crosses_y_first(grid, p, q, cur, tgt) {
        lemma_interpolate_between(p.y as int, p.x as int, q.y as int, q.x as int, by);
        lemma_cut_in_band(
            p.y as int,
            p.x as int,
            q.y as int,
            q.x as int,
            by,
            grid.line_x(cur.x as int),
            grid.line_x(cur.x + 1),
            cur.x == start.x,
            cur.x == tgt.x,
            ex,
            bx,
        );
        assert(ny == by);
        assert(nx == ex && ox == bx);
        if c.next.x != start.x && c.next.y != tgt.y {
            lemma_product_ordered(abs(by - p.y), abs(oy - p.y), dx);
        }
    } else {
        assert(abs(bx - p.x) * dy == abs(by - p.y) * dx);
        assert(nx == bx && ny == by);
        if c.next.y != tgt.y {
            lemma_product_ordered(abs(by - p.y), abs(oy - p.y), dx);
        }
        if c.next.x != tgt.x {
            lemma_product_ordered(abs(bx - p.x), abs(ox - p.x), dy);
        }
    }
}

/// The pieces of two runs of events lie in their tiles where those of each
/// run do.
proof fn lemma_pieces_concat(grid: GridGeometry, first: Seq<Event>, second: Seq<Event>)
    requires
        pieces_in_tiles(grid, first),
        pieces_in_tiles(grid, second),
    ensures
        pieces_in_tiles(grid, first + second),
{
    assert forall|k: int| 0 <= k < (first + second).len() implies piece_in_tile(
        grid,
        #[trigger] (first + second)[k],
    ) by {
        if k < first.len() {
            assert((first + second)[k] == first[k]);
        } else {
            assert((first + second)[k] == second[k - first.len()]);
        }
    }
}

/// Every callback of a walk on course hands a point to a tile in whose box,
/// edges included, the point lies.
pub proof fn lemma_walk_in_tiles(grid: GridGeometry, p: Point, q: Point, cur: Index, tgt: Index)
    requires
        grid.wf(),
        tgt == grid.lookup(q),
        between(grid.lookup(p), cur, tgt),
        on_course(grid, p, q, cur, tgt),
    ensures
        pieces_in_tiles(grid, walk_events(grid, p, q, cur, tgt)),
    decreases distance(cur, tgt),
{
    if cur != tgt {
        let c = crossing(grid, p, q, cur, tgt);
        lemma_crossing_within(grid, p, q, cur, tgt);
        lemma_crossing_advances(grid, p, q, grid.lookup(p), cur, tgt);
        lemma_walk_in_tiles(grid, p, q, c.next, tgt);
        let here = crossing_events(grid, cur, c.next, c.point);
        assert forall|k: int| 0 <= k < here.len() implies piece_in_tile(grid, #[trigger] here[k]) by {}
        lemma_pieces_concat(grid, here, walk_events(grid, p, q, c.next, tgt));
    }
}

/// A point lies in the box of the tile that owns it.
proof fn lemma_owner_holds(grid: GridGeometry, point: Point)
    requires
        grid.wf(),
    ensures
        within_tile(grid, grid.lookup(point), point),
{
    grid.lemma_lookup_fits(point);
    grid.lemma_column_bounds(point.x as int);
    grid.lemma_row_bounds(point.y as int);
}

proof fn lemma_segments_in_tiles(grid: GridGeometry, points: Seq<Point>, n: nat)
    requires
        grid.wf(),
        n < points.len(),
    ensures
        pieces_in_tiles(grid, segments_events(grid, points, n)),
    decreases n,
{
    if n > 0 {
        lemma_segments_in_tiles(grid, points, (n - 1) as nat);
        let p = points[n - 1];
        let q = points[n as int];
        let last = n == points.len() - 1;
        lemma_walk_in_tiles(grid, p, q, grid.lookup(p), grid.lookup(q));
        lemma_owner_holds(grid, q);
        let arrival = arrival_events(grid, q, last);
        assert forall|k: int| 0 <= k < arrival.len() implies piece_in_tile(grid, #[trigger] arrival[k]) by {}
        lemma_pieces_concat(grid, walk_events(grid, p, q, grid.lookup(p), grid.lookup(q)), arrival);
        lemma_pieces_concat(
            grid,
            segments_events(grid, points, (n - 1) as nat),
            segment_events(grid, p, q, last),
        );
    }
}

/// Every callback for a path hands a point to a tile of the grid, and the
/// point lies in the box of that tile, edges included.
pub proof fn lemma_path_pieces_in_tiles(grid: GridGeometry, points: Seq<Point>)
    requires
        grid.wf(),
        points.len() >= 2,
    ensures
        pieces_in_tiles(grid, path_events(grid, points)),
{
    lemma_segments_in_tiles(grid, points, (points.len() - 1) as nat);
    lemma_owner_holds(grid, points[0]);
    let start = start_events(grid, points[0]);
    assert forall|k: int| 0 <= k < start.len() implies piece_in_tile(grid, #[trigger] start[k]) by {}
    lemma_pieces_concat(grid, start, segments_events(grid, points, (points.len() - 1) as nat));
}

/// Where a run of callbacks stands: a piece is open in a tile, or none is.
pub enum Progress {
    /// No piece is open.
    Idle,
    /// A piece is open in the tile.
    Open(Index),
    /// A callback came out of turn.
    Broken,
}

/// Where a run stands after one more callback. A piece begins only while
/// none is open, and goes on and ends only in the tile in which it is open.
pub open spec fn advance(progress: Progress, event: Event) -> Progress {
    match (progress, event) {
        (Progress::Idle, Event::PathEnter(index, _)) => Progress::Open(index),
        (Progress::Open(at), Event::PathStep(index, _)) => if at == index {
            Progress::Open(at)
        } else {
            Progress::Broken
        },
        (Progress::Open(at), Event::PathLeave(index, _)) => if at == index {
            Progress::Idle
        } else {
            Progress::Broken
        },
        _ => Progress::Broken,
    }
}

/// Where a run that stood at `progress` stands after `events`.
pub open spec fn run(progress: Progress, events: Seq<Event>) -> Progress
    decreases events.len(),
{
    if events.len() == 0 {
        progress
    } else {
        advance(run(progress, events.drop_last()), events.last())
    }
}

proof fn lemma_run_concat(progress: Progress, first: Seq<Event>, second: Seq<Event>)
    ensures
        run(progress, first + second) == run(run(progress, first), second),
    decreases second.len(),
{
    if second.len() == 0 {
        assert(first + second =~= first);
    } else {
        lemma_run_concat(progress, first, second.drop_last());
        assert((first + second).drop_last() =~= first + second.drop_last());
    }
}

proof fn lemma_run_one(progress: Progress, event: Event)
    ensures
        run(progress, seq![event]) == advance(progress, event),
{
    assert(seq![event].drop_last() =~= Seq::<Event>::empty());
    assert(run(progress, Seq::<Event>::empty()) == progress);
    assert(seq![event].last() == event);
}

/// Where a run stands while the path is in the tile `index`: a piece is open
/// there if the tile belongs to the grid.
pub open spec fn standing(grid: GridGeometry, index: Index) -> Progress {
    if grid.in_range(index) {
        Progress::Open(index)
    } else {
        Progress::Idle
    }
}

proof fn lemma_walk_in_turn(grid: GridGeometry, p: Point, q: Point, cur: Index, tgt: Index)
    ensures
        run(standing(grid, cur), walk_events(grid, p, q, cur, tgt)) == standing(grid, tgt),
    decreases distance(cur, tgt),
{
    if cur != tgt {
        let c = crossing(grid, p, q, cur, tgt);
        lemma_crossing_advances(grid, p, q, cur, cur, tgt);
        lemma_walk_in_turn(grid, p, q, c.next, tgt);
        let leave = if grid.in_range(cur) {
            seq![Event::PathLeave(cur, c.point)]
        } else {
            Seq::empty()
        };
        let enter = if grid.in_range(c.next) {
            seq![Event::PathEnter(c.next, c.point)]
        } else {
            Seq::empty()
        };
        if grid.in_range(cur) {
            lemma_run_one(standing(grid, cur), Event::PathLeave(cur, c.point));
        }
        if grid.in_range(c.next) {
            lemma_run_one(Progress::Idle, Event::PathEnter(c.next, c.point));
        }
        lemma_run_concat(standing(grid, cur), leave, enter);
        lemma_run_concat(standing(grid, cur), leave + enter, walk_events(grid, p, q, c.next, tgt));
    }
}

proof fn lemma_segments_in_turn(grid: GridGeometry, points: Seq<Point>, n: nat)
    requires
        n < points.len(),
    ensures
        run(standing(grid, grid.lookup(points[0])), segments_events(grid, points, n)) == if n
            == points.len() - 1 && n > 0 {
            Progress::Idle
        } else {
            standing(grid, grid.lookup(points[n as int]))
        },
    decreases n,
{
    if n > 0 {
        lemma_segments_in_turn(grid, points, (n - 1) as nat);
        let p = points[n - 1];
        let q = points[n as int];
        let last = n == points.len() - 1;
        let from = standing(grid, grid.lookup(points[0]));
        let walk = walk_events(grid, p, q, grid.lookup(p), grid.lookup(q));
        let arrival = arrival_events(grid, q, last);
        lemma_walk_in_turn(grid, p, q, grid.lookup(p), grid.lookup(q));
        if grid.in_range(grid.lookup(q)) {
            lemma_run_one(standing(grid, grid.lookup(q)), arrival[0]);
        }
        lemma_run_concat(standing(grid, grid.lookup(p)), walk, arrival);
        lemma_run_concat(from, segments_events(grid, points, (n - 1) as nat), walk + arrival);
    }
}

/// The callbacks for a path come in turn: a piece begins in a tile while
/// none is open, goes on in that tile step by step, and ends there before
/// the next begins; in the end none is open.
pub proof fn lemma_path_pieces_in_turn(grid: GridGeometry, points: Seq<Point>)
    requires
        points.len() >= 2,
    ensures
        run(Progress::Idle, path_events(grid, points)) == Progress::Idle,
{
    let start = start_events(grid, points[0]);
    if grid.in_range(grid.lookup(points[0])) {
        lemma_run_one(Progress::Idle, Event::PathEnter(grid.lookup(points[0]), points[0]));
    }
    lemma_segments_in_turn(grid, points, (points.len() - 1) as nat);
    lemma_run_concat(Progress::Idle, start, segments_events(grid, points, (points.len() - 1) as nat));
}

/// On which side of the line through `p` and `q` the point `(x, y)` lies:
/// positive on the one side, negative on the other, zero on the line.
pub open spec fn side(p: Point, q: Point, x: int, y: int) -> int {
    (q.x - p.x) * (y - p.y) - (q.y - p.y) * (x - p.x)
}

/// The line through `p` and `q` passes the grid by: the four corners of the
/// grid lie on one side of it, none of them on it.
pub open spec fn clear_of(grid: GridGeometry, p: Point, q: Point) -> bool {
    let x0 = grid.line_x(0);
    let x1 = grid.line_x(grid.size.x as int);
    let y0 = grid.line_y(0);
    let y1 = grid.line_y(grid.size.y as int);
    ||| side(p, q, x0, y0) > 0 && side(p, q, x0, y1) > 0 && side(p, q, x1, y0) > 0 && side(p, q, x1, y1) > 0
    ||| side(p, q, x0, y0) < 0 && side(p, q, x0, y1) < 0 && side(p, q, x1, y0) < 0 && side(p, q, x1, y1) < 0
}

/// Computes [`side`].
fn side_of(p: Point, q: Point, x: i32, y: i32) -> (r: i128)
    ensures
        r == side(p, q, x as int, y as int),
{
    let dx: i128 = q.x as i128 - p.x as i128;
    let dy: i128 = q.y as i128 - p.y as i128;
    let ex: i128 = x as i128 - p.x as i128;
    let ey: i128 = y as i128 - p.y as i128;
    proof {
        assert(-0x1_0000_0000_0000_0000 <= dx * ey <= 0x1_0000_0000_0000_0000) by (nonlinear_arith)
            requires
                -0x1_0000_0000 <= dx <= 0x1_0000_0000,
                -0x1_0000_0000 <= ey <= 0x1_0000_0000,
        ;
        assert(-0x1_0000_0000_0000_0000 <= dy * ex <= 0x1_0000_0000_0000_0000) by (nonlinear_arith)
            requires
                -0x1_0000_0000 <= dy <= 0x1_0000_0000,
                -0x1_0000_0000 <= ex <= 0x1_0000_0000,
        ;
    }
    dx * ey - dy * ex
}

/// Computes [`clear_of`]: whether the line through `p` and `q` passes the
/// grid by.
pub fn passes_by(grid: &GridGeometry, p: Point, q: Point) -> (r: bool)
    requires
        grid.wf(),
    ensures
        r == clear_of(*grid, p, q),
{
    proof {
        grid.lemma_lines_fit(0);
        grid.lemma_lines_fit(grid.size.x as int);
        grid.lemma_lines_fit(grid.size.y as int);
        assert(0 * (grid.step.x as int) == 0 && 0 * (grid.step.y as int) == 0);
    }
    let x0: i32 = grid.origin.x;
    let y0: i32 = grid.origin.y;
    let x1: i32 = line_at(grid.origin.x, grid.step.x, grid.size.x) as i32;
    let y1: i32 = line_at(grid.origin.y, grid.step.y, grid.size.y) as i32;
    let a = side_of(p, q, x0, y0);
    let b = side_of(p, q, x0, y1);
    let c = side_of(p, q, x1, y0);
    let d = side_of(p, q, x1, y1);
    (a > 0 && b > 0 && c > 0 && d > 0) || (a < 0 && b < 0 && c < 0 && d < 0)
}

/// Where a line passes the grid by, every point of the box of the grid lies
/// on that side of the line on which its corners lie.
proof fn lemma_box_on_one_side(grid: GridGeometry, p: Point, q: Point, x: int, y: int)
    requires
        clear_of(grid, p, q),
        grid.line_x(0) <= x <= grid.line_x(grid.size.x as int),
        grid.line_y(0) <= y <= grid.line_y(grid.size.y as int),
    ensures
        side(p, q, grid.line_x(0), grid.line_y(0)) > 0 ==> side(p, q, x, y) > 0,
        side(p, q, grid.line_x(0), grid.line_y(0)) < 0 ==> side(p, q, x, y) < 0,
{
    let x0 = grid.line_x(0);
    let x1 = grid.line_x(grid.size.x as int);
    let y0 = grid.line_y(0);
    let y1 = grid.line_y(grid.size.y as int);
    let dx = q.x - p.x;
    let dy = q.y - p.y;
    // The side is least and greatest at corners.
    let y_least = if dx >= 0 { y0 } else { y1 };
    let y_most = if dx >= 0 { y1 } else { y0 };
    let x_least = if dy >= 0 { x1 } else { x0 };
    let x_most = if dy >= 0 { x0 } else { x1 };
    assert(dx * (y_least - p.y) <= dx * (y - p.y) <= dx * (y_most - p.y)) by (nonlinear_arith)
        requires
            y0 <= y <= y1,
            y_least == if dx >= 0 { y0 } else { y1 },
            y_most == if dx >= 0 { y1 } else { y0 },
    ;
    assert(dy * (x_most - p.x) <= dy * (x - p.x) <= dy * (x_least - p.x)) by (nonlinear_arith)
        requires
            x0 <= x <= x1,
            x_least == if dy >= 0 { x1 } else { x0 },
            x_most == if dy >= 0 { x0 } else { x1 },
    ;
    assert(side(p, q, x_least, y_least) <= side(p, q, x, y) <= side(p, q, x_most, y_most));
}

/// The lines of the tiles of the grid lie in the box of the grid.
proof fn lemma_lines_in_box(grid: GridGeometry, column: int, row: int)
    requires
        grid.wf(),
    ensures
        0 <= column <= grid.size.x ==> grid.line_x(0) <= grid.line_x(column) <= grid.line_x(grid.size.x as int),
        0 <= row <= grid.size.y ==> grid.line_y(0) <= grid.line_y(row) <= grid.line_y(grid.size.y as int),
{
    if 0 <= column <= grid.size.x {
        grid.lemma_lines_ordered(0, column);
        grid.lemma_lines_ordered(column, grid.size.x as int);
    }
    if 0 <= row <= grid.size.y {
        grid.lemma_lines_ordered(0, row);
        grid.lemma_lines_ordered(row, grid.size.y as int);
    }
}

/// Where the line of a segment passes the grid by, no crossing of the walk
/// along the segment touches a tile of the grid.
proof fn lemma_crossing_clear(grid: GridGeometry, p: Point, q: Point, cur: Index, tgt: Index)
    requires
        grid.wf(),
        cur != tgt,
        tgt == grid.lookup(q),
        between(grid.lookup(p), cur, tgt),
        on_course(grid, p, q, cur, tgt),
        clear_of(grid, p, q),
    ensures
        !grid.in_range(cur),
        !grid.in_range(crossing(grid, p, q, cur, tgt).next),
{
    let start = grid.lookup(p);
    let c = crossing(grid, p, q, cur, tgt);
    if grid.in_range(cur) || grid.in_range(c.next) {
        let bx = exit_line_x(grid, cur, tgt);
        let by = exit_line_y(grid, cur, tgt);
        let lo_x = grid.line_x(cur.x as int);
        let hi_x = grid.line_x(cur.x + 1);
        let lo_y = grid.line_y(cur.y as int);
        let hi_y = grid.line_y(cur.y + 1);
        grid.lemma_lookup_fits(p);
        grid.lemma_lookup_fits(q);
        grid.lemma_column_bounds(p.x as int);
        grid.lemma_column_bounds(q.x as int);
        grid.lemma_row_bounds(p.y as int);
        grid.lemma_row_bounds(q.y as int);
        grid.lemma_lines_ordered(cur.x as int, cur.x + 1);
        grid.lemma_lines_ordered(cur.y as int, cur.y + 1);
        lemma_line_between_x(grid, p, q, cur.x as int);
        lemma_line_between_x(grid, p, q, cur.x + 1);
        lemma_line_between_y(grid, p, q, cur.y as int);
        lemma_line_between_y(grid, p, q, cur.y + 1);
        lemma_crossing_advances(grid, p, q, start, cur, tgt);
        lemma_lines_in_box(grid, cur.x as int, cur.y as int);
        lemma_lines_in_box(grid, cur.x + 1, cur.y + 1);
        if crosses_x_first(grid, p, q, cur, tgt) {
            // The cut lies on a vertical edge that a tile of the grid has,
            // between the ends of that edge.
            assert(0 <= cur.y < grid.size.y);
            assert(bx == lo_x || bx == hi_x);
            assert(grid.in_range(cur) ==> 0 <= cur.x && cur.x + 1 <= grid.size.x);
            assert(grid.in_range(c.next) && c.next.x > cur.x ==> bx == hi_x && 0 <= cur.x + 1 <= grid.size.x);
            assert(grid.in_range(c.next) && c.next.x < cur.x ==> bx == lo_x && 0 <= cur.x <= grid.size.x);
            lemma_exact_cut_in_band(
                p.x as int,
                p.y as int,
                q.x as int,
                q.y as int,
                bx,
                lo_y,
                hi_y,
                cur.y == start.y,
                cur.y == tgt.y,
                entry_line_y(grid, start, cur),
                by,
            );
            lemma_box_on_one_side(grid, p, q, bx, lo_y);
            lemma_box_on_one_side(grid, p, q, bx, hi_y);
            let d = abs(q.x - p.x);
            let n = abs(bx - p.x);
            let h = q.y - p.y;
            if q.x > p.x {
                assert(side(p, q, bx, lo_y) == d * (lo_y - p.y) - h * n);
                assert(side(p, q, bx, hi_y) == d * (hi_y - p.y) - h * n);
                assert(d * (lo_y - p.y) == (lo_y - p.y) * d && d * (hi_y - p.y) == (hi_y - p.y) * d)
                    by (nonlinear_arith);
            } else {
                assert(side(p, q, bx, lo_y) == (-d) * (lo_y - p.y) - h * (-n));
                assert(side(p, q, bx, hi_y) == (-d) * (hi_y - p.y) - h * (-n));
                assert((-d) * (lo_y - p.y) == -((lo_y - p.y) * d) && (-d) * (hi_y - p.y) == -((hi_y - p.y)
                    * d) && h * (-n) == -(h * n)) by (nonlinear_arith);
            }
            assert(false);
        } else if crosses_y_first(grid, p, q, cur, tgt) {
            assert(0 <= cur.x < grid.size.x);
            assert(by == lo_y || by == hi_y);
            assert(grid.in_range(cur) ==> 0 <= cur.y && cur.y + 1 <= grid.size.y);
            assert(grid.in_range(c.next) && c.next.y > cur.y ==> by == hi_y && 0 <= cur.y + 1 <= grid.size.y);
            assert(grid.in_range(c.next) && c.next.y < cur.y ==> by == lo_y && 0 <= cur.y <= grid.size.y);
            lemma_exact_cut_in_band(
                p.y as int,
                p.x as int,
                q.y as int,
                q.x as int,
                by,
                lo_x,
                hi_x,
                cur.x == start.x,
                cur.x == tgt.x,
                entry_line_x(grid, start, cur),
                bx,
            );
            lemma_box_on_one_side(grid, p, q, lo_x, by);
            lemma_box_on_one_side(grid, p, q, hi_x, by);
            let d = abs(q.y - p.y);
            let n = abs(by - p.y);
            let h = q.x - p.x;
            if q.y > p.y {
                assert(side(p, q, lo_x, by) == h * n - d * (lo_x - p.x));
                assert(side(p, q, hi_x, by) == h * n - d * (hi_x - p.x));
                assert(d * (lo_x - p.x) == (lo_x - p.x) * d && d * (hi_x - p.x) == (hi_x - p.x) * d)
                    by (nonlinear_arith);
            } else {
                assert(side(p, q, lo_x, by) == h * (-n) - (-d) * (lo_x - p.x));
                assert(side(p, q, hi_x, by) == h * (-n) - (-d) * (hi_x - p.x));
                assert((-d) * (lo_x - p.x) == -((lo_x - p.x) * d) && (-d) * (hi_x - p.x) == -((hi_x - p.x)
                    * d) && h * (-n) == -(h * n)) by (nonlinear_arith);
            }
            assert(false);
        } else {
            // The cut is a corner of a tile of the grid, and lies on the line.
            lemma_box_on_one_side(grid, p, q, bx, by);
            let dx = abs(q.x - p.x);
            let dy = abs(q.y - p.y);
            let nx = abs(bx - p.x);
            let ny = abs(by - p.y);
            assert(nx * dy == ny * dx);
            assert(side(p, q, bx, by) == 0) by (nonlinear_arith)
                requires
                    nx * dy == ny * dx,
                    (q.x > p.x && dx == q.x - p.x && nx == bx - p.x) || (q.x < p.x && dx == p.x - q.x && nx
                        == p.x - bx),
                    (q.y > p.y && dy == q.y - p.y && ny == by - p.y) || (q.y < p.y && dy == p.y - q.y && ny
                        == p.y - by),
                    side(p, q, bx, by) == (q.x - p.x) * (by - p.y) - (q.y - p.y) * (bx - p.x),
            ;
            assert(false);
        }
    }
}

proof fn lemma_walk_clear(grid: GridGeometry, p: Point, q: Point, cur: Index, tgt: Index)
    requires
        grid.wf(),
        tgt == grid.lookup(q),
        between(grid.lookup(p), cur, tgt),
        on_course(grid, p, q, cur, tgt),
        clear_of(grid, p, q),
    ensures
        walk_events(grid, p, q, cur, tgt) == Seq::<Event>::empty(),
    decreases distance(cur, tgt),
{
    if cur != tgt {
        let c = crossing(grid, p, q, cur, tgt);
        lemma_crossing_clear(grid, p, q, cur, tgt);
        lemma_crossing_within(grid, p, q, cur, tgt);
        lemma_crossing_advances(grid, p, q, grid.lookup(p), cur, tgt);
        lemma_walk_clear(grid, p, q, c.next, tgt);
        assert(crossing_events(grid, cur, c.next, c.point) =~= Seq::<Event>::empty());
        assert(walk_events(grid, p, q, cur, tgt) =~= Seq::<Event>::empty());
    }
}

/// Where the line of a segment passes the grid by, neither end of the
/// segment lies in a tile of the grid, and the walk along the segment gives
/// no callback.
pub proof fn lemma_segment_clear(grid: GridGeometry, p: Point, q: Point)
    requires
        grid.wf(),
        clear_of(grid, p, q),
    ensures
        !grid.in_range(grid.lookup(p)),
        !grid.in_range(grid.lookup(q)),
        walk_events(grid, p, q, grid.lookup(p), grid.lookup(q)) == Seq::<Event>::empty(),
{
    lemma_walk_clear(grid, p, q, grid.lookup(p), grid.lookup(q));
    lemma_end_clear(grid, p, q, p);
    lemma_end_clear(grid, p, q, q);
}

/// A point on the line that passes the grid by lies in no tile of the grid.
proof fn lemma_end_clear(grid: GridGeometry, p: Point, q: Point, end: Point)
    requires
        grid.wf(),
        clear_of(grid, p, q),
        side(p, q, end.x as int, end.y as int) == 0,
    ensures
        !grid.in_range(grid.lookup(end)),
{
    let index = grid.lookup(end);
    if grid.in_range(index) {
        grid.lemma_lookup_fits(end);
        grid.lemma_column_bounds(end.x as int);
        grid.lemma_row_bounds(end.y as int);
        lemma_lines_in_box(grid, index.x as int, index.y as int);
        lemma_lines_in_box(grid, index.x + 1, index.y + 1);
        lemma_box_on_one_side(grid, p, q, end.x as int, end.y as int);
    }
}

/// The segment from `p` to `q` lies wholly outside the box of the grid: both
/// its ends lie on one side of the grid, or its line passes the grid by.
pub open spec fn segment_outside(grid: GridGeometry, p: Point, q: Point) -> bool {
    beside(grid, grid.lookup(p), grid.lookup(q)) || clear_of(grid, p, q)
}

proof fn lemma_segments_outside(grid: GridGeometry, points: Seq<Point>, n: nat)
    requires
        grid.wf(),
        n < points.len(),
        forall|i: int| 0 <= i < points.len() - 1 ==> segment_outside(grid, #[trigger] points[i], points[i + 1]),
    ensures
        segments_events(grid, points, n) == Seq::<Event>::empty(),
    decreases n,
{
    if n > 0 {
        lemma_segments_outside(grid, points, (n - 1) as nat);
        let p = points[n - 1];
        let q = points[n as int];
        assert(segment_outside(grid, points[n - 1], points[n - 1 + 1]));
        if clear_of(grid, p, q) {
            lemma_segment_clear(grid, p, q);
        } else {
            lemma_walk_beside(grid, p, q, grid.lookup(p), grid.lookup(q));
        }
        assert(segments_events(grid, points, n) =~= Seq::<Event>::empty());
    }
}

/// A path of which each segment lies wholly outside the box of the grid gives
/// no callback at all.
pub proof fn lemma_path_outside(grid: GridGeometry, points: Seq<Point>)
    requires
        grid.wf(),
        points.len() >= 2,
        forall|i: int| 0 <= i < points.len() - 1 ==> segment_outside(grid, #[trigger] points[i], points[i + 1]),
    ensures
        path_events(grid, points) == Seq::<Event>::empty(),
{
    lemma_segments_outside(grid, points, (points.len() - 1) as nat);
    assert(segment_outside(grid, points[0], points[0int + 1]));
    if clear_of(grid, points[0], points[1]) {
        lemma_segment_clear(grid, points[0], points[1]);
    }
    assert(path_events(grid, points) =~= Seq::<Event>::empty());
}

} // verus!
