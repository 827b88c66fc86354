//! Cutting a closed ring into the tiles of a grid.
//!
//! The ring is cut into columns first, each along the two lines that bound
//! it, and each column into rows in the same way. What is cut off on the far
//! side of a line is what the next column or row is cut from.
use vstd::prelude::*;
use crate::geometry::{Index, Point};
use crate::geometry::arith::{abs, lemma_floor_ordered};
use crate::geometry::bbox::BBox;
use crate::geometry::grid::{
    all_beside, lemma_replay_concat, lemma_replay_push, line_at, replay, within_tile, Event, Grid,
    GridGeometry,
};
use crate::geometry::polygon::{
    bounds, bounds_of, clip_ring, clipped, clipped_upto, combined, coord, cross, cut_point, doubled_area,
    doubled_area_of, doubled_area_upto, kept, lemma_bounds_hold, lemma_bounds_least,
    lemma_clipped_all_kept, lemma_clipped_within, lemma_combined_area_bounded_with_one_hole,
    lemma_cut_point_within, Axis,
};

verus! {

/// The first column or row to cut, of those from `low` on: none before the
/// grid.
pub open spec fn first_index(low: int) -> int {
    if low < 0 {
        0
    } else {
        low
    }
}

/// The last column or row to cut, of those up to `high`: none beyond the
/// `count` of the grid.
pub open spec fn last_index(high: int, count: int) -> int {
    if high >= count {
        count - 1
    } else {
        high
    }
}

/// The callback for the piece of a ring that was cut out for one tile: the
/// piece is handed over if it has three points or more and encloses an area,
/// and dropped otherwise.
pub open spec fn tile_events(piece: Seq<Point>, index: Index) -> Seq<Event> {
    if piece.len() >= 3 && doubled_area(piece) != 0 {
        seq![Event::PolygonAdd(index, piece)]
    } else {
        Seq::empty()
    }
}

/// The callbacks for the rows `row` to `last` of one column, where `rest` is
/// the part of the column from the line at which `row` begins upwards.
pub open spec fn rows_events(grid: GridGeometry, rest: Seq<Point>, column: int, row: int, last: int) -> Seq<Event>
    decreases last - row + 1,
{
    if row > last {
        Seq::empty()
    } else {
        let line = grid.line_y(row + 1);
        tile_events(clipped(rest, Axis::Y, line, true), Index { x: column as i64, y: row as i64 })
            + rows_events(grid, clipped(rest, Axis::Y, line, false), column, row + 1, last)
    }
}

/// The callbacks for the part of a ring that lies in one column: it is cut
/// into the rows of the grid that its bounds reach.
pub open spec fn strip_events(grid: GridGeometry, strip: Seq<Point>, column: int) -> Seq<Event> {
    if strip.len() < 3 {
        Seq::empty()
    } else {
        let b = bounds(strip);
        let first = first_index(grid.row(b.min.y as int));
        let last = last_index(grid.row(b.max.y as int), grid.size.y as int);
        rows_events(grid, clipped(strip, Axis::Y, grid.line_y(first), false), column, first, last)
    }
}

/// The callbacks for the columns `column` to `last`, where `rest` is the part
/// of the ring from the line at which `column` begins rightwards.
pub open spec fn columns_events(grid: GridGeometry, rest: Seq<Point>, column: int, last: int) -> Seq<Event>
    decreases last - column + 1,
{
    if column > last {
        Seq::empty()
    } else {
        let line = grid.line_x(column + 1);
        strip_events(grid, clipped(rest, Axis::X, line, true), column) + columns_events(
            grid,
            clipped(rest, Axis::X, line, false),
            column + 1,
            last,
        )
    }
}

/// The callbacks for a closed ring: it is cut into the columns of the grid
/// that its bounds reach, and each column into rows. A ring of fewer than
/// three points gives none.
pub open spec fn polygon_events(grid: GridGeometry, ring: Seq<Point>) -> Seq<Event> {
    if ring.len() < 3 || grid.size.x <= 0 || grid.size.y <= 0 {
        Seq::empty()
    } else {
        let b = bounds(ring);
        let first = first_index(grid.column(b.min.x as int));
        let last = last_index(grid.column(b.max.x as int), grid.size.x as int);
        columns_events(grid, clipped(ring, Axis::X, grid.line_x(first), false), first, last)
    }
}

/// Cuts the part `strip` of a ring, which lies in the column `column`, into
/// rows, and hands each piece that encloses an area to its tile.
fn clip_strip<G: Grid>(target: &mut G, grid: &GridGeometry, strip: &[Point], column: i64)
    requires
        old(target).wf(),
        old(target).geometry() == *grid,
        grid.wf(),
        0 <= column < grid.size.x,
    ensures
        final(target).wf(),
        final(target).geometry() == old(target).geometry(),
        final(target).state() == replay::<G>(
            old(target).state(),
            strip_events(*grid, strip@, column as int),
        ),
        G::idle(old(target).state()) ==> G::idle(final(target).state()),
{
    let ghost state0 = target.state();
    if strip.len() < 3 {
        return ;
    }
    let b = bounds_of(strip);
    let low = grid.lookup_point(b.min);
    let high = grid.lookup_point(b.max);
    let first: i64 = if low.y < 0 { 0 } else { low.y };
    let last: i64 = if high.y >= grid.size.y { grid.size.y - 1 } else { high.y };
    if first > last {
        return ;
    }
    proof {
        grid.lemma_lines_fit(first as int);
    }
    let mut rest = clip_ring(strip, Axis::Y, line_at(grid.origin.y, grid.step.y, first) as i32, false);
    let ghost rest0 = rest@;
    let ghost mut done: Seq<Event> = Seq::empty();
    let mut row = first;
    while row <= last
        invariant
            grid.wf(),
            0 <= first <= row <= last + 1,
            last < grid.size.y,
            0 <= column < grid.size.x,
            target.wf(),
            target.geometry() == *grid,
            target.state() == replay::<G>(state0, done),
            done + rows_events(*grid, rest@, column as int, row as int, last as int) == rows_events(
                *grid,
                rest0,
                column as int,
                first as int,
                last as int,
            ),
            G::idle(state0) ==> G::idle(target.state()),
        decreases last - row + 1,
    {
        proof {
            grid.lemma_lines_fit(row + 1);
        }
        let line = line_at(grid.origin.y, grid.step.y, row + 1) as i32;
        let piece = clip_ring(rest.as_slice(), Axis::Y, line, true);
        let index = Index { x: column, y: row };
        let ghost before = done;
        let ghost old_rest = rest@;
        if piece.len() >= 3 {
            let area = doubled_area_of(piece.as_slice());
            if area != 0 {
                proof {
                    lemma_replay_push::<G>(state0, done, Event::PolygonAdd(index, piece@));
                    done = done.push(Event::PolygonAdd(index, piece@));
                }
                target.polygon_add(index, piece.as_slice());
            }
        }
        rest = clip_ring(rest.as_slice(), Axis::Y, line, false);
        proof {
            assert(done =~= before + tile_events(piece@, index));
            assert(before + rows_events(*grid, old_rest, column as int, row as int, last as int) =~= done
                + rows_events(*grid, rest@, column as int, row + 1, last as int));
        }
        row = row + 1;
    }
    assert(done =~= rows_events(*grid, rest0, column as int, first as int, last as int));
}

/// Cuts the closed ring `ring` along the lines of the grid of `target`, and
/// hands each piece that encloses an area to the tile in which it lies.
///
/// The callbacks are those of [`polygon_events`], in that order.
pub fn clip_polygon<G: Grid>(target: &mut G, ring: &[Point])
    requires
        old(target).wf(),
    ensures
        final(target).wf(),
        final(target).geometry() == old(target).geometry(),
        final(target).state() == replay::<G>(
            old(target).state(),
            polygon_events(old(target).geometry(), ring@),
        ),
        G::idle(old(target).state()) ==> G::idle(final(target).state()),
{
    let ghost grid0 = target.geometry();
    let ghost state0 = target.state();
    proof {
        target.lemma_geometry_wf();
    }
    if ring.len() < 3 {
        return ;
    }
    let range = target.index_range();
    if range.x <= 0 || range.y <= 0 {
        return ;
    }
    proof {
        grid0.lemma_tiles_fit(Index { x: 0, y: 0 });
    }
    let home = target.tile_box(Index { x: 0, y: 0 });
    proof {
        grid0.lemma_lines_fit(0);
        grid0.lemma_lines_fit(1);
        assert(0 * (grid0.step.x as int) == 0 && 1 * (grid0.step.x as int) == grid0.step.x);
        assert(0 * (grid0.step.y as int) == 0 && 1 * (grid0.step.y as int) == grid0.step.y);
    }
    let grid = GridGeometry {
        origin: home.min,
        step: Point { x: home.max.x - home.min.x, y: home.max.y - home.min.y },
        size: range,
    };
    assert(grid == grid0);
    let b = bounds_of(ring);
    let low = target.lookup_point(b.min);
    let high = target.lookup_point(b.max);
    proof {
        grid.lemma_lookup_fits(b.min);
        grid.lemma_lookup_fits(b.max);
    }
    let first: i64 = if low.x < 0 { 0 } else { low.x };
    let last: i64 = if high.x >= range.x { range.x - 1 } else { high.x };
    if first > last {
        return ;
    }
    proof {
        grid.lemma_lines_fit(first as int);
    }
    let mut rest = clip_ring(ring, Axis::X, line_at(grid.origin.x, grid.step.x, first) as i32, false);
    let ghost rest0 = rest@;
    let ghost mut done: Seq<Event> = Seq::empty();
    let mut column = first;
    while column <= last
        invariant
            grid.wf(),
            0 <= first <= column <= last + 1,
            last < grid.size.x,
            target.wf(),
            target.geometry() == grid,
            target.state() == replay::<G>(state0, done),
            done + columns_events(grid, rest@, column as int, last as int) == columns_events(
                grid,
                rest0,
                first as int,
                last as int,
            ),
            G::idle(state0) ==> G::idle(target.state()),
        decreases last - column + 1,
    {
        proof {
            grid.lemma_lines_fit(column + 1);
        }
        let line = line_at(grid.origin.x, grid.step.x, column + 1) as i32;
        let strip = clip_ring(rest.as_slice(), Axis::X, line, true);
        let ghost before = done;
        let ghost old_rest = rest@;
        proof {
            lemma_replay_concat::<G>(state0, done, strip_events(grid, strip@, column as int));
            done = done + strip_events(grid, strip@, column as int);
        }
        clip_strip(target, &grid, strip.as_slice(), column);
        rest = clip_ring(rest.as_slice(), Axis::X, line, false);
        proof {
            assert(before + columns_events(grid, old_rest, column as int, last as int) =~= done
                + columns_events(grid, rest@, column + 1, last as int));
        }
        column = column + 1;
    }
    assert(done =~= columns_events(grid, rest0, first as int, last as int));
}

/// A ring of three points or more that lies in one tile of the grid is
/// handed to that tile as it is, or to none if it encloses no area, and to
/// no other tile.
pub proof fn lemma_polygon_in_one_tile_uncut(grid: GridGeometry, ring: Seq<Point>, index: Index)
    requires
        grid.wf(),
        grid.in_range(index),
        ring.len() >= 3,
        forall|i: int| 0 <= i < ring.len() ==> #[trigger] grid.lookup(ring[i]) == index,
    ensures
        polygon_events(grid, ring) == tile_events(ring, index),
{
    let c = index.x as int;
    let r = index.y as int;
    grid.lemma_lines_fit(c);
    grid.lemma_lines_fit(c + 1);
    grid.lemma_lines_fit(r);
    grid.lemma_lines_fit(r + 1);
    grid.lemma_lines_ordered(c, c + 1);
    grid.lemma_lines_ordered(r, r + 1);
    let tile = BBox {
        min: Point { x: grid.line_x(c) as i32, y: grid.line_y(r) as i32 },
        max: Point { x: (grid.line_x(c + 1) - 1) as i32, y: (grid.line_y(r + 1) - 1) as i32 },
    };
    assert forall|i: int| 0 <= i < ring.len() implies tile.contains(#[trigger] ring[i]) && kept(
        ring[i],
        Axis::X,
        grid.line_x(c),
        false,
    ) && kept(ring[i], Axis::X, grid.line_x(c + 1), true) && kept(ring[i], Axis::Y, grid.line_y(r), false)
        && kept(ring[i], Axis::Y, grid.line_y(r + 1), true) by {
        assert(grid.lookup(ring[i]) == index);
        grid.lemma_lookup_fits(ring[i]);
        grid.lemma_column_bounds(ring[i].x as int);
        grid.lemma_row_bounds(ring[i].y as int);
    }
    lemma_bounds_least(ring, tile);
    let b = bounds(ring);
    grid.lemma_lookup_inside(index, b.min);
    grid.lemma_lookup_inside(index, b.max);
    grid.lemma_lookup_fits(b.min);
    grid.lemma_lookup_fits(b.max);
    lemma_clipped_all_kept(ring, Axis::X, grid.line_x(c), false);
    lemma_clipped_all_kept(ring, Axis::X, grid.line_x(c + 1), true);
    lemma_clipped_all_kept(ring, Axis::Y, grid.line_y(r), false);
    lemma_clipped_all_kept(ring, Axis::Y, grid.line_y(r + 1), true);
    let rest_row = clipped(ring, Axis::Y, grid.line_y(r + 1), false);
    assert(rows_events(grid, rest_row, c, r + 1, r) =~= Seq::<Event>::empty());
    assert(rows_events(grid, ring, c, r, r) =~= tile_events(ring, index));
    assert(strip_events(grid, ring, c) =~= tile_events(ring, index));
    let rest_column = clipped(ring, Axis::X, grid.line_x(c + 1), false);
    assert(columns_events(grid, rest_column, c + 1, c) =~= Seq::<Event>::empty());
    assert(columns_events(grid, ring, c, c) =~= tile_events(ring, index));
}

/// A ring that lies in one tile of the grid, has three points or more and
/// encloses an area is handed to that tile as it is, and to no other tile.
pub proof fn lemma_polygon_in_one_tile(grid: GridGeometry, ring: Seq<Point>, index: Index)
    requires
        grid.wf(),
        grid.in_range(index),
        ring.len() >= 3,
        doubled_area(ring) != 0,
        forall|i: int| 0 <= i < ring.len() ==> #[trigger] grid.lookup(ring[i]) == index,
    ensures
        polygon_events(grid, ring) == seq![Event::PolygonAdd(index, ring)],
{
    lemma_polygon_in_one_tile_uncut(grid, ring, index);
}

/// No row of the grid reaches into the box `within`.
pub open spec fn rows_miss(grid: GridGeometry, within: BBox) -> bool {
    grid.row(within.max.y as int) < 0 || grid.row(within.min.y as int) >= grid.size.y
}

proof fn lemma_strip_misses(grid: GridGeometry, strip: Seq<Point>, column: int, within: BBox)
    requires
        grid.wf(),
        within.contains_all(strip),
        rows_miss(grid, within),
    ensures
        strip_events(grid, strip, column) == Seq::<Event>::empty(),
{
    if strip.len() >= 3 {
        lemma_bounds_least(strip, within);
        let b = bounds(strip);
        lemma_floor_ordered(b.max.y - grid.origin.y, within.max.y - grid.origin.y, grid.step.y as int);
        lemma_floor_ordered(within.min.y - grid.origin.y, b.min.y - grid.origin.y, grid.step.y as int);
    }
}

proof fn lemma_columns_miss(grid: GridGeometry, rest: Seq<Point>, column: int, last: int, within: BBox)
    requires
        grid.wf(),
        within.contains_all(rest),
        rows_miss(grid, within),
    ensures
        columns_events(grid, rest, column, last) == Seq::<Event>::empty(),
    decreases last - column + 1,
{
    if column <= last {
        let line = grid.line_x(column + 1);
        lemma_clipped_within(rest, Axis::X, line, true, within);
        lemma_clipped_within(rest, Axis::X, line, false, within);
        lemma_strip_misses(grid, clipped(rest, Axis::X, line, true), column, within);
        lemma_columns_miss(grid, clipped(rest, Axis::X, line, false), column + 1, last, within);
        assert(columns_events(grid, rest, column, last) =~= Seq::<Event>::empty());
    }
}

/// A ring whose points all lie on one side of the grid gives no callback at
/// all.
pub proof fn lemma_polygon_beside(grid: GridGeometry, ring: Seq<Point>)
    requires
        grid.wf(),
        all_beside(grid, ring),
    ensures
        polygon_events(grid, ring) == Seq::<Event>::empty(),
{
    if ring.len() >= 3 && grid.size.x > 0 && grid.size.y > 0 {
        lemma_bounds_hold(ring);
        let b = bounds(ring);
        let first = first_index(grid.column(b.min.x as int));
        let last = last_index(grid.column(b.max.x as int), grid.size.x as int);
        let rest = clipped(ring, Axis::X, grid.line_x(first), false);
        grid.lemma_lines_fit(0);
        grid.lemma_lines_fit(grid.size.x as int);
        grid.lemma_lines_fit(grid.size.y as int);
        assert(0 * (grid.step.x as int) == 0 && 0 * (grid.step.y as int) == 0);
        let sample = ring[0];
        grid.lemma_lookup_fits(sample);
        if forall|i: int| 0 <= i < ring.len() ==> (#[trigger] grid.lookup(ring[i])).x < 0 {
            assert(grid.lookup(sample).x < 0);
            grid.lemma_column_at_least(sample.x as int, 0);
            let side = BBox {
                min: Point { x: i32::MIN, y: i32::MIN },
                max: Point { x: (grid.origin.x - 1) as i32, y: i32::MAX },
            };
            assert forall|i: int| 0 <= i < ring.len() implies side.contains(#[trigger] ring[i]) by {
                assert(grid.lookup(ring[i]).x < 0);
                grid.lemma_lookup_fits(ring[i]);
                grid.lemma_column_at_least(ring[i].x as int, 0);
            }
            lemma_bounds_least(ring, side);
            grid.lemma_column_at_least(b.max.x as int, 0);
            assert(last < first);
        } else if forall|i: int| 0 <= i < ring.len() ==> (#[trigger] grid.lookup(ring[i])).x >= grid.size.x {
            let side = BBox {
                min: Point { x: grid.line_x(grid.size.x as int) as i32, y: i32::MIN },
                max: Point { x: i32::MAX, y: i32::MAX },
            };
            assert forall|i: int| 0 <= i < ring.len() implies side.contains(#[trigger] ring[i]) by {
                assert(grid.lookup(ring[i]).x >= grid.size.x);
                grid.lemma_lookup_fits(ring[i]);
                grid.lemma_column_at_least(ring[i].x as int, grid.size.x as int);
            }
            lemma_bounds_least(ring, side);
            grid.lemma_column_at_least(b.min.x as int, grid.size.x as int);
            assert(last < first);
        } else if forall|i: int| 0 <= i < ring.len() ==> (#[trigger] grid.lookup(ring[i])).y < 0 {
            assert(grid.lookup(sample).y < 0);
            grid.lemma_row_at_least(sample.y as int, 0);
            let side = BBox {
                min: Point { x: i32::MIN, y: i32::MIN },
                max: Point { x: i32::MAX, y: (grid.origin.y - 1) as i32 },
            };
            assert forall|i: int| 0 <= i < ring.len() implies side.contains(#[trigger] ring[i]) by {
                assert(grid.lookup(ring[i]).y < 0);
                grid.lemma_lookup_fits(ring[i]);
                grid.lemma_row_at_least(ring[i].y as int, 0);
            }
            grid.lemma_row_at_least(side.max.y as int, 0);
            lemma_clipped_within(ring, Axis::X, grid.line_x(first), false, side);
            lemma_columns_miss(grid, rest, first, last, side);
        } else {
            let side = BBox {
                min: Point { x: i32::MIN, y: grid.line_y(grid.size.y as int) as i32 },
                max: Point { x: i32::MAX, y: i32::MAX },
            };
            assert forall|i: int| 0 <= i < ring.len() implies side.contains(#[trigger] ring[i]) by {
                assert(grid.lookup(ring[i]).y >= grid.size.y);
                grid.lemma_lookup_fits(ring[i]);
                grid.lemma_row_at_least(ring[i].y as int, grid.size.y as int);
            }
            grid.lemma_row_at_least(side.min.y as int, grid.size.y as int);
            lemma_clipped_within(ring, Axis::X, grid.line_x(first), false, side);
            lemma_columns_miss(grid, rest, first, last, side);
        }
    }
}

/// The event hands a ring to a tile of the grid, and every point of the ring
/// lies in the box of that tile or on its edges.
pub open spec fn lies_in_tile(grid: GridGeometry, event: Event) -> bool {
    match event {
        Event::PolygonAdd(index, piece) => {
            &&& grid.in_range(index)
            &&& forall|j: int| 0 <= j < piece.len() ==> within_tile(grid, index, #[trigger] piece[j])
            &&& piece.len() >= 3
            &&& doubled_area(piece) != 0
        },
        _ => false,
    }
}

/// Each of the events hands a ring to the tile in which it lies.
pub open spec fn all_in_tiles(grid: GridGeometry, events: Seq<Event>) -> bool {
    forall|k: int| 0 <= k < events.len() ==> lies_in_tile(grid, #[trigger] events[k])
}

proof fn lemma_rows_in_tiles(grid: GridGeometry, rest: Seq<Point>, column: int, row: int, last: int)
    requires
        grid.wf(),
        0 <= column < grid.size.x,
        0 <= row,
        last < grid.size.y,
        forall|i: int|
            0 <= i < rest.len() ==> grid.line_x(column) <= (#[trigger] rest[i]).x <= grid.line_x(column + 1)
                && grid.line_y(row) <= rest[i].y,
    ensures
        all_in_tiles(grid, rows_events(grid, rest, column, row, last)),
    decreases last - row + 1,
{
    if row <= last {
        grid.lemma_lines_fit(column);
        grid.lemma_lines_fit(column + 1);
        grid.lemma_lines_fit(row);
        grid.lemma_lines_fit(row + 1);
        let line = grid.line_y(row + 1);
        let index = Index { x: column as i64, y: row as i64 };
        let within = BBox {
            min: Point { x: grid.line_x(column) as i32, y: grid.line_y(row) as i32 },
            max: Point { x: grid.line_x(column + 1) as i32, y: i32::MAX },
        };
        assert forall|i: int| 0 <= i < rest.len() implies within.contains(#[trigger] rest[i]) by {}
        lemma_clipped_within(rest, Axis::Y, line, true, within);
        lemma_clipped_within(rest, Axis::Y, line, false, within);
        let piece = clipped(rest, Axis::Y, line, true);
        let next = clipped(rest, Axis::Y, line, false);
        assert forall|i: int| 0 <= i < piece.len() implies within_tile(grid, index, #[trigger] piece[i]) by {
            assert(within.contains(piece[i]));
            assert(kept(piece[i], Axis::Y, line, true));
        }
        assert forall|i: int| 0 <= i < next.len() implies grid.line_x(column) <= (#[trigger] next[i]).x
            <= grid.line_x(column + 1) && grid.line_y(row + 1) <= next[i].y by {
            assert(within.contains(next[i]));
            assert(kept(next[i], Axis::Y, line, false));
        }
        lemma_rows_in_tiles(grid, next, column, row + 1, last);
        let head = tile_events(piece, index);
        let tail = rows_events(grid, next, column, row + 1, last);
        assert forall|k: int| 0 <= k < (head + tail).len() implies lies_in_tile(
            grid,
            #[trigger] (head + tail)[k],
        ) by {
            if k < head.len() {
                assert((head + tail)[k] == head[k]);
            } else {
                assert((head + tail)[k] == tail[k - head.len()]);
            }
        }
    }
}

proof fn lemma_strip_in_tiles(grid: GridGeometry, strip: Seq<Point>, column: int)
    requires
        grid.wf(),
        0 <= column < grid.size.x,
        forall|i: int|
            0 <= i < strip.len() ==> grid.line_x(column) <= (#[trigger] strip[i]).x <= grid.line_x(
                column + 1,
            ),
    ensures
        all_in_tiles(grid, strip_events(grid, strip, column)),
{
    if strip.len() >= 3 {
        let b = bounds(strip);
        let first = first_index(grid.row(b.min.y as int));
        let last = last_index(grid.row(b.max.y as int), grid.size.y as int);
        if first <= last {
            grid.lemma_lines_fit(column);
            grid.lemma_lines_fit(column + 1);
            grid.lemma_lines_fit(first);
            let within = BBox {
                min: Point { x: grid.line_x(column) as i32, y: i32::MIN },
                max: Point { x: grid.line_x(column + 1) as i32, y: i32::MAX },
            };
            assert forall|i: int| 0 <= i < strip.len() implies within.contains(#[trigger] strip[i]) by {}
            lemma_clipped_within(strip, Axis::Y, grid.line_y(first), false, within);
            let rest = clipped(strip, Axis::Y, grid.line_y(first), false);
            assert forall|i: int| 0 <= i < rest.len() implies grid.line_x(column) <= (#[trigger] rest[i]).x
                <= grid.line_x(column + 1) && grid.line_y(first) <= rest[i].y by {
                assert(within.contains(rest[i]));
                assert(kept(rest[i], Axis::Y, grid.line_y(first), false));
            }
            lemma_rows_in_tiles(grid, rest, column, first, last);
        }
    }
}

proof fn lemma_columns_in_tiles(grid: GridGeometry, rest: Seq<Point>, column: int, last: int)
    requires
        grid.wf(),
        0 <= column,
        last < grid.size.x,
        forall|i: int| 0 <= i < rest.len() ==> grid.line_x(column) <= (#[trigger] rest[i]).x,
    ensures
        all_in_tiles(grid, columns_events(grid, rest, column, last)),
    decreases last - column + 1,
{
    if column <= last {
        grid.lemma_lines_fit(column);
        grid.lemma_lines_fit(column + 1);
        let line = grid.line_x(column + 1);
        let within = BBox {
            min: Point { x: grid.line_x(column) as i32, y: i32::MIN },
            max: Point { x: i32::MAX, y: i32::MAX },
        };
        assert forall|i: int| 0 <= i < rest.len() implies within.contains(#[trigger] rest[i]) by {}
        lemma_clipped_within(rest, Axis::X, line, true, within);
        lemma_clipped_within(rest, Axis::X, line, false, within);
        let strip = clipped(rest, Axis::X, line, true);
        let next = clipped(rest, Axis::X, line, false);
        assert forall|i: int| 0 <= i < strip.len() implies grid.line_x(column) <= (#[trigger] strip[i]).x
            <= grid.line_x(column + 1) by {
            assert(within.contains(strip[i]));
            assert(kept(strip[i], Axis::X, line, true));
        }
        assert forall|i: int| 0 <= i < next.len() implies grid.line_x(column + 1) <= (#[trigger] next[i]).x by {
            assert(kept(next[i], Axis::X, line, false));
        }
        lemma_strip_in_tiles(grid, strip, column);
        lemma_columns_in_tiles(grid, next, column + 1, last);
        let head = strip_events(grid, strip, column);
        let tail = columns_events(grid, next, column + 1, last);
        assert forall|k: int| 0 <= k < (head + tail).len() implies lies_in_tile(
            grid,
            #[trigger] (head + tail)[k],
        ) by {
            if k < head.len() {
                assert((head + tail)[k] == head[k]);
            } else {
                assert((head + tail)[k] == tail[k - head.len()]);
            }
        }
    }
}

/// Every callback for a ring hands a piece to a tile of the grid; the piece
/// has three points or more, encloses an area, and lies in the box of that
/// tile, edges included.
pub proof fn lemma_polygon_pieces_in_tiles(grid: GridGeometry, ring: Seq<Point>)
    requires
        grid.wf(),
    ensures
        all_in_tiles(grid, polygon_events(grid, ring)),
{
    if ring.len() >= 3 && grid.size.x > 0 && grid.size.y > 0 {
        let b = bounds(ring);
        let first = first_index(grid.column(b.min.x as int));
        let last = last_index(grid.column(b.max.x as int), grid.size.x as int);
        if first <= last {
            grid.lemma_lines_fit(first);
            let within = BBox {
                min: Point { x: i32::MIN, y: i32::MIN },
                max: Point { x: i32::MAX, y: i32::MAX },
            };
            lemma_clipped_within(ring, Axis::X, grid.line_x(first), false, within);
            let rest = clipped(ring, Axis::X, grid.line_x(first), false);
            assert forall|i: int| 0 <= i < rest.len() implies grid.line_x(first) <= (#[trigger] rest[i]).x by {
                assert(kept(rest[i], Axis::X, grid.line_x(first), false));
            }
            lemma_columns_in_tiles(grid, rest, first, last);
        }
    }
}

/// The tile to which the event hands a ring. An event that hands no ring over
/// counts for the first tile.
pub open spec fn piece_index(event: Event) -> Index {
    match event {
        Event::PolygonAdd(index, _) => index,
        _ => Index { x: 0, y: 0 },
    }
}

/// The tile `a` comes before the tile `b` where the tiles are counted column
/// by column, and in each column row by row.
pub open spec fn comes_before(a: Index, b: Index) -> bool {
    a.x < b.x || (a.x == b.x && a.y < b.y)
}

/// The events hand their rings to tiles that come one after the other, so
/// that no tile is handed two.
pub open spec fn pieces_ordered(events: Seq<Event>) -> bool {
    forall|j: int, k: int|
        0 <= j < k < events.len() ==> comes_before(piece_index(#[trigger] events[j]), piece_index(#[trigger] events[k]))
}

proof fn lemma_rows_ordered(grid: GridGeometry, rest: Seq<Point>, column: int, row: int, last: int)
    requires
        0 <= column <= i64::MAX,
        0 <= row,
        last <= i64::MAX,
    ensures
        pieces_ordered(rows_events(grid, rest, column, row, last)),
        forall|k: int|
            0 <= k < rows_events(grid, rest, column, row, last).len() ==> {
                let index = piece_index(#[trigger] rows_events(grid, rest, column, row, last)[k]);
                index.x == column && row <= index.y <= last
            },
    decreases last - row + 1,
{
    if row <= last {
        let line = grid.line_y(row + 1);
        let head = tile_events(clipped(rest, Axis::Y, line, true), Index { x: column as i64, y: row as i64 });
        let next = clipped(rest, Axis::Y, line, false);
        let tail = rows_events(grid, next, column, row + 1, last);
        lemma_rows_ordered(grid, next, column, row + 1, last);
        let all = head + tail;
        assert forall|k: int| 0 <= k < all.len() implies {
            let index = piece_index(#[trigger] all[k]);
            index.x == column && row <= index.y <= last && (k < head.len() ==> index.y == row) && (k
                >= head.len() ==> index.y > row)
        } by {
            if k < head.len() {
                assert(all[k] == head[k]);
            } else {
                assert(all[k] == tail[k - head.len()]);
            }
        }
        assert forall|j: int, k: int| 0 <= j < k < all.len() implies comes_before(
            piece_index(#[trigger] all[j]),
            piece_index(#[trigger] all[k]),
        ) by {
            if j >= head.len() {
                assert(all[j] == tail[j - head.len()]);
                assert(all[k] == tail[k - head.len()]);
            }
        }
    }
}

proof fn lemma_columns_ordered(grid: GridGeometry, rest: Seq<Point>, column: int, last: int)
    requires
        grid.wf(),
        0 <= column,
        last <= i64::MAX,
    ensures
        pieces_ordered(columns_events(grid, rest, column, last)),
        forall|k: int|
            0 <= k < columns_events(grid, rest, column, last).len() ==> column <= piece_index(
                #[trigger] columns_events(grid, rest, column, last)[k],
            ).x <= last,
    decreases last - column + 1,
{
    if column <= last {
        let line = grid.line_x(column + 1);
        let strip = clipped(rest, Axis::X, line, true);
        let next = clipped(rest, Axis::X, line, false);
        let head = strip_events(grid, strip, column);
        let tail = columns_events(grid, next, column + 1, last);
        if strip.len() >= 3 {
            let b = bounds(strip);
            let first_row = first_index(grid.row(b.min.y as int));
            let last_row = last_index(grid.row(b.max.y as int), grid.size.y as int);
            lemma_rows_ordered(
                grid,
                clipped(strip, Axis::Y, grid.line_y(first_row), false),
                column,
                first_row,
                last_row,
            );
        }
        lemma_columns_ordered(grid, next, column + 1, last);
        let all = head + tail;
        assert forall|k: int| 0 <= k < all.len() implies {
            let index = piece_index(#[trigger] all[k]);
            column <= index.x <= last && (k < head.len() ==> index.x == column) && (k >= head.len()
                ==> index.x > column)
        } by {
            if k < head.len() {
                assert(all[k] == head[k]);
            } else {
                assert(all[k] == tail[k - head.len()]);
            }
        }
        assert forall|j: int, k: int| 0 <= j < k < all.len() implies comes_before(
            piece_index(#[trigger] all[j]),
            piece_index(#[trigger] all[k]),
        ) by {
            if k < head.len() {
                assert(all[j] == head[j]);
                assert(all[k] == head[k]);
            } else if j >= head.len() {
                assert(all[j] == tail[j - head.len()]);
                assert(all[k] == tail[k - head.len()]);
            }
        }
    }
}

/// A ring is handed to each tile at most once: the tiles of the callbacks
/// come one after the other, column by column and in each column row by row.
pub proof fn lemma_polygon_one_piece_per_tile(grid: GridGeometry, ring: Seq<Point>)
    requires
        grid.wf(),
    ensures
        pieces_ordered(polygon_events(grid, ring)),
        forall|j: int, k: int|
            0 <= j < k < polygon_events(grid, ring).len() ==> piece_index(
                #[trigger] polygon_events(grid, ring)[j],
            ) != piece_index(#[trigger] polygon_events(grid, ring)[k]),
{
    if ring.len() >= 3 && grid.size.x > 0 && grid.size.y > 0 {
        let b = bounds(ring);
        let first = first_index(grid.column(b.min.x as int));
        let last = last_index(grid.column(b.max.x as int), grid.size.x as int);
        let rest = clipped(ring, Axis::X, grid.line_x(first), false);
        lemma_columns_ordered(grid, rest, first, last);
    }
    let events = polygon_events(grid, ring);
    assert forall|j: int, k: int| 0 <= j < k < events.len() implies piece_index(#[trigger] events[j])
        != piece_index(#[trigger] events[k]) by {
        assert(comes_before(piece_index(events[j]), piece_index(events[k])));
    }
}

/// The ring round the rectangle between two corners, from the lower corner
/// on, first along x.
pub open spec fn rectangle(lo: Point, hi: Point) -> Seq<Point> {
    seq![lo, Point { x: hi.x, y: lo.y }, hi, Point { x: lo.x, y: hi.y }]
}

/// The ring round the rectangle between two corners, from the corner above
/// the lower one on, first down.
pub open spec fn rectangle_from_above(lo: Point, hi: Point) -> Seq<Point> {
    seq![Point { x: lo.x, y: hi.y }, lo, Point { x: hi.x, y: lo.y }, hi]
}

/// An edge along one coordinate meets a line across it at the point of the
/// line with the other coordinate of the edge.
proof fn lemma_cut_flat(a: Point, b: Point, axis: Axis, bound: int)
    requires
        coord(a, axis) <= bound <= coord(b, axis) || coord(b, axis) <= bound <= coord(a, axis),
        coord(a, axis) != coord(b, axis),
        match axis {
            Axis::X => a.y == b.y,
            Axis::Y => a.x == b.x,
        },
    ensures
        cut_point(a, b, axis, bound) == match axis {
            Axis::X => Point { x: bound as i32, y: a.y },
            Axis::Y => Point { x: a.x, y: bound as i32 },
        },
{
    let within = BBox {
        min: Point { x: if a.x < b.x { a.x } else { b.x }, y: if a.y < b.y { a.y } else { b.y } },
        max: Point { x: if a.x < b.x { b.x } else { a.x }, y: if a.y < b.y { b.y } else { a.y } },
    };
    lemma_cut_point_within(a, b, axis, bound, within);
}

/// A rectangle that is cut along a vertical line through it falls into the
/// rectangle on the one side and the rectangle on the other.
proof fn lemma_rectangle_cut_x(lo: Point, hi: Point, line: int)
    requires
        lo.x < line < hi.x,
        lo.y < hi.y,
    ensures
        clipped(rectangle(lo, hi), Axis::X, line, true) == rectangle(lo, Point { x: line as i32, y: hi.y }),
        clipped(rectangle(lo, hi), Axis::X, line, false) == rectangle(Point { x: line as i32, y: lo.y }, hi),
{
    let ring = rectangle(lo, hi);
    reveal_with_fuel(clipped_upto, 5);
    lemma_cut_flat(ring[0], ring[1], Axis::X, line);
    lemma_cut_flat(ring[2], ring[3], Axis::X, line);
    assert(clipped(ring, Axis::X, line, true) =~= rectangle(lo, Point { x: line as i32, y: hi.y }));
    assert(clipped(ring, Axis::X, line, false) =~= rectangle(Point { x: line as i32, y: lo.y }, hi));
}

/// A rectangle that is cut along a horizontal line through it falls into the
/// rectangle below and the rectangle above.
proof fn lemma_rectangle_cut_y(lo: Point, hi: Point, line: int)
    requires
        lo.x < hi.x,
        lo.y < line < hi.y,
    ensures
        clipped(rectangle(lo, hi), Axis::Y, line, true) == rectangle_from_above(
            lo,
            Point { x: hi.x, y: line as i32 },
        ),
        clipped(rectangle(lo, hi), Axis::Y, line, false) == rectangle(Point { x: lo.x, y: line as i32 }, hi),
{
    let ring = rectangle(lo, hi);
    reveal_with_fuel(clipped_upto, 5);
    lemma_cut_flat(ring[3], ring[0], Axis::Y, line);
    lemma_cut_flat(ring[1], ring[2], Axis::Y, line);
    assert(clipped(ring, Axis::Y, line, true) =~= rectangle_from_above(
        lo,
        Point { x: hi.x, y: line as i32 },
    ));
    assert(clipped(ring, Axis::Y, line, false) =~= rectangle(Point { x: lo.x, y: line as i32 }, hi));
}

/// A rectangle encloses twice its width times its height, doubled, whichever
/// corner its ring begins at, and its bounds are its corners.
proof fn lemma_rectangle_area(lo: Point, hi: Point)
    requires
        lo.x < hi.x,
        lo.y < hi.y,
    ensures
        doubled_area(rectangle(lo, hi)) == 2 * ((hi.x - lo.x) * (hi.y - lo.y)),
        doubled_area(rectangle_from_above(lo, hi)) == 2 * ((hi.x - lo.x) * (hi.y - lo.y)),
        doubled_area(rectangle(lo, hi)) > 0,
        bounds(rectangle(lo, hi)) == (BBox { min: lo, max: hi }),
{
    reveal_with_fuel(doubled_area_upto, 5);
    reveal_with_fuel(bounds, 5);
    let w = hi.x - lo.x;
    let h = hi.y - lo.y;
    assert(w * h > 0) by (nonlinear_arith)
        requires
            w > 0,
            h > 0,
    ;
    let ring = rectangle(lo, hi);
    assert(cross(ring[3], ring[0]) + cross(ring[0], ring[1]) + cross(ring[1], ring[2]) + cross(ring[2], ring[3])
        == 2 * (w * h)) by (nonlinear_arith)
        requires
            ring[0] == lo,
            ring[1] == (Point { x: hi.x, y: lo.y }),
            ring[2] == hi,
            ring[3] == (Point { x: lo.x, y: hi.y }),
            w == hi.x - lo.x,
            h == hi.y - lo.y,
    ;
    let above = rectangle_from_above(lo, hi);
    assert(cross(above[3], above[0]) + cross(above[0], above[1]) + cross(above[1], above[2]) + cross(
        above[2],
        above[3],
    ) == 2 * (w * h)) by (nonlinear_arith)
        requires
            above[1] == lo,
            above[2] == (Point { x: hi.x, y: lo.y }),
            above[3] == hi,
            above[0] == (Point { x: lo.x, y: hi.y }),
            w == hi.x - lo.x,
            h == hi.y - lo.y,
    ;
    assert(ring.drop_last().drop_last().drop_last() =~= seq![lo]);
    assert(ring.drop_last().drop_last() =~= seq![lo, Point { x: hi.x, y: lo.y }]);
    assert(ring.drop_last() =~= seq![lo, Point { x: hi.x, y: lo.y }, hi]);
}

/// A rectangle that lies in one column of a grid of two rows, over the line
/// between the rows, is handed to the lower tile up to that line and to the
/// upper tile from it on.
proof fn lemma_rectangle_over_two_rows(grid: GridGeometry, lo: Point, hi: Point, column: int)
    requires
        grid.wf(),
        grid.size.y == 2,
        0 <= column <= i64::MAX,
        lo.x < hi.x,
        grid.line_y(0) <= lo.y < grid.line_y(1) < hi.y < grid.line_y(2),
    ensures
        strip_events(grid, rectangle(lo, hi), column) == seq![
            Event::PolygonAdd(
                Index { x: column as i64, y: 0 },
                rectangle_from_above(lo, Point { x: hi.x, y: grid.line_y(1) as i32 }),
            ),
            Event::PolygonAdd(
                Index { x: column as i64, y: 1 },
                rectangle(Point { x: lo.x, y: grid.line_y(1) as i32 }, hi),
            ),
        ],
{
    let ring = rectangle(lo, hi);
    let middle = grid.line_y(1);
    let below = rectangle_from_above(lo, Point { x: hi.x, y: middle as i32 });
    let above = rectangle(Point { x: lo.x, y: middle as i32 }, hi);
    reveal_with_fuel(rows_events, 3);
    lemma_rectangle_area(lo, hi);
    lemma_rectangle_area(lo, Point { x: hi.x, y: middle as i32 });
    lemma_rectangle_area(Point { x: lo.x, y: middle as i32 }, hi);
    grid.lemma_row_at_least(lo.y as int, 0);
    grid.lemma_row_at_least(lo.y as int, 1);
    grid.lemma_row_at_least(hi.y as int, 1);
    grid.lemma_row_at_least(hi.y as int, 2);
    assert(grid.row(lo.y as int) == 0 && grid.row(hi.y as int) == 1);
    lemma_clipped_all_kept(ring, Axis::Y, grid.line_y(0), false);
    lemma_rectangle_cut_y(lo, hi, middle);
    lemma_clipped_all_kept(above, Axis::Y, grid.line_y(2), true);
    assert(1 + 1 == 2);
    assert(tile_events(below, Index { x: column as i64, y: 0 }) =~= seq![
        Event::PolygonAdd(Index { x: column as i64, y: 0 }, below),
    ]);
    assert(tile_events(above, Index { x: column as i64, y: 1 }) =~= seq![
        Event::PolygonAdd(Index { x: column as i64, y: 1 }, above),
    ]);
    assert(rows_events(grid, ring, column, 0, 1) =~= seq![
        Event::PolygonAdd(Index { x: column as i64, y: 0 }, below),
        Event::PolygonAdd(Index { x: column as i64, y: 1 }, above),
    ]);
}

/// A rectangle that lies over the point at which the four tiles of a grid of
/// two by two tiles meet is handed to each of the four tiles once: to each
/// the rectangle between the lines of the grid and the edges of the whole
/// that lie in the tile.
pub proof fn lemma_rectangle_over_four_tiles(grid: GridGeometry, lo: Point, hi: Point)
    requires
        grid.wf(),
        grid.size.x == 2,
        grid.size.y == 2,
        grid.line_x(0) <= lo.x < grid.line_x(1) < hi.x < grid.line_x(2),
        grid.line_y(0) <= lo.y < grid.line_y(1) < hi.y < grid.line_y(2),
    ensures
        ({
            let mx = grid.line_x(1) as i32;
            let my = grid.line_y(1) as i32;
            polygon_events(grid, rectangle(lo, hi)) == seq![
                Event::PolygonAdd(
                    Index { x: 0, y: 0 },
                    rectangle_from_above(lo, Point { x: mx, y: my }),
                ),
                Event::PolygonAdd(
                    Index { x: 0, y: 1 },
                    rectangle(Point { x: lo.x, y: my }, Point { x: mx, y: hi.y }),
                ),
                Event::PolygonAdd(
                    Index { x: 1, y: 0 },
                    rectangle_from_above(Point { x: mx, y: lo.y }, Point { x: hi.x, y: my }),
                ),
                Event::PolygonAdd(Index { x: 1, y: 1 }, rectangle(Point { x: mx, y: my }, hi)),
            ]
        }),
{
    let ring = rectangle(lo, hi);
    let mx = grid.line_x(1) as i32;
    let my = grid.line_y(1) as i32;
    let left = rectangle(lo, Point { x: mx, y: hi.y });
    let right = rectangle(Point { x: mx, y: lo.y }, hi);
    reveal_with_fuel(columns_events, 3);
    lemma_rectangle_area(lo, hi);
    grid.lemma_column_at_least(lo.x as int, 0);
    grid.lemma_column_at_least(lo.x as int, 1);
    grid.lemma_column_at_least(hi.x as int, 1);
    grid.lemma_column_at_least(hi.x as int, 2);
    assert(grid.column(lo.x as int) == 0 && grid.column(hi.x as int) == 1);
    lemma_clipped_all_kept(ring, Axis::X, grid.line_x(0), false);
    lemma_rectangle_cut_x(lo, hi, grid.line_x(1));
    lemma_clipped_all_kept(right, Axis::X, grid.line_x(2), true);
    lemma_rectangle_over_two_rows(grid, lo, Point { x: mx, y: hi.y }, 0);
    lemma_rectangle_over_two_rows(grid, Point { x: mx, y: lo.y }, hi, 1);
    assert(1 + 1 == 2);
    assert(columns_events(grid, ring, 0, 1) =~= strip_events(grid, left, 0) + strip_events(grid, right, 1));
    assert(polygon_events(grid, ring) =~= seq![
        Event::PolygonAdd(Index { x: 0, y: 0 }, rectangle_from_above(lo, Point { x: mx, y: my })),
        Event::PolygonAdd(Index { x: 0, y: 1 }, rectangle(Point { x: lo.x, y: my }, Point { x: mx, y: hi.y })),
        Event::PolygonAdd(
            Index { x: 1, y: 0 },
            rectangle_from_above(Point { x: mx, y: lo.y }, Point { x: hi.x, y: my }),
        ),
        Event::PolygonAdd(Index { x: 1, y: 1 }, rectangle(Point { x: mx, y: my }, hi)),
    ]);
}

/// Twice the signed area of the ring that the event hands to a tile.
pub open spec fn piece_area(event: Event) -> int {
    match event {
        Event::PolygonAdd(_, piece) => doubled_area(piece),
        _ => 0,
    }
}

/// Where a ring with one hole joined to it lies in one tile of the grid, and
/// so is handed over uncut, no piece that is handed to a tile encloses more
/// than the ring alone. The hole encloses no more than the ring, as every
/// hole within the ring does.
pub proof fn lemma_uncut_piece_with_one_hole(grid: GridGeometry, outer: Seq<Point>, hole: Seq<Point>, index: Index)
    requires
        grid.wf(),
        grid.in_range(index),
        abs(doubled_area(hole)) <= abs(doubled_area(outer)),
        forall|i: int|
            0 <= i < combined(outer, seq![hole]).len() ==> #[trigger] grid.lookup(
                combined(outer, seq![hole])[i],
            ) == index,
    ensures
        forall|k: int|
            0 <= k < polygon_events(grid, combined(outer, seq![hole])).len() ==> abs(
                piece_area(#[trigger] polygon_events(grid, combined(outer, seq![hole]))[k]),
            ) <= abs(doubled_area(outer)),
{
    let joined = combined(outer, seq![hole]);
    lemma_combined_area_bounded_with_one_hole(outer, hole);
    if joined.len() >= 3 {
        lemma_polygon_in_one_tile_uncut(grid, joined, index);
    }
}

} // verus!
