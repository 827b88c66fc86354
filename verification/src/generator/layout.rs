//! Where the grid of a world lies: round a centre, at a zoom level.
use vstd::prelude::*;
use vstd::arithmetic::div_mod::{lemma_fundamental_div_mod, lemma_fundamental_div_mod_converse};
use crate::geometry::{Index, Point};
use crate::geometry::arith::{lemma_floor_bounds, lemma_floor_unique};
use crate::geometry::grid::GridGeometry;
use crate::projection::MAP_WIDTH;

verus! {

/// The extent of a tile at the zoom level `zoom`: the width of the map,
/// halved once for each level, rounded down.
pub open spec fn tile_step(zoom: nat) -> int
    decreases zoom,
{
    if zoom == 0 {
        MAP_WIDTH as int
    } else {
        tile_step((zoom - 1) as nat) / 2
    }
}

/// The remainder of `a` by `d` that has the sign of `a`.
pub open spec fn remainder(a: int, d: int) -> int {
    if a >= 0 {
        a % d
    } else {
        -((-a) % d)
    }
}

/// The x coordinate at which a grid round `center` begins: the centre is
/// moved to the line of the lattice of tiles next to it towards zero, and
/// from there the grid reaches half its width to the left.
pub open spec fn centered_x(center: Point, cols: int, step: int) -> int {
    center.x - remainder(center.x as int, step) - (cols * step) / 2
}

/// The y coordinate at which a grid round `center` begins: the centre is
/// moved to the line of the lattice of tiles next to it towards zero, and
/// from there the grid reaches half its height down.
pub open spec fn centered_y(center: Point, rows: int, step: int) -> int {
    center.y - remainder(center.y as int, step) - (rows * step) / 2
}

/// The grid of `cols` by `rows` tiles of the zoom level `zoom` round
/// `center`, if there is one: the tiles have an extent of one unit or more,
/// the grid lies within the coordinates that a point can hold, and the
/// number of its tiles is one that the machine can count.
pub open spec fn centered_grid(center: Point, cols: int, rows: int, zoom: nat) -> Option<GridGeometry> {
    let step = tile_step(zoom);
    let x = centered_x(center, cols, step);
    let y = centered_y(center, rows, step);
    if step >= 1 && i32::MIN <= x && x + cols * step <= i32::MAX && i32::MIN <= y && y + rows * step
        <= i32::MAX && cols * rows <= usize::MAX {
        Some(
            GridGeometry {
                origin: Point { x: x as i32, y: y as i32 },
                step: Point { x: step as i32, y: step as i32 },
                size: Index { x: cols as i64, y: rows as i64 },
            },
        )
    } else {
        None
    }
}

/// Computes [`tile_step`].
pub fn tile_step_of(zoom: u8) -> (step: i32)
    ensures
        step == tile_step(zoom as nat),
        0 <= step <= MAP_WIDTH,
{
    let mut step: i32 = MAP_WIDTH;
    let mut level: u8 = 0;
    while level < zoom
        invariant
            level <= zoom,
            step == tile_step(level as nat),
            0 <= step <= MAP_WIDTH,
        decreases zoom - level,
    {
        step = step / 2;
        level = level + 1;
    }
    step
}

/// Computes [`remainder`].
fn remainder_of(a: i32, d: i32) -> (r: i32)
    requires
        d > 0,
    ensures
        r == remainder(a as int, d as int),
        -d < r < d,
{
    if a >= 0 {
        a % d
    } else {
        let m: i64 = -(a as i64);
        let r: i64 = m % (d as i64);
        (-r) as i32
    }
}

/// Computes [`centered_grid`].
pub fn centered(center: Point, cols: usize, rows: usize, zoom: u8) -> (grid: Option<GridGeometry>)
    ensures
        grid == centered_grid(center, cols as int, rows as int, zoom as nat),
        grid matches Some(g) ==> g.wf() && g.size.x == cols && g.size.y == rows,
{
    let step = tile_step_of(zoom);
    if step < 1 {
        return None;
    }
    proof {
        assert(0 <= cols * step <= 0xffff_ffff_ffff_ffff * 0x4000_0000) by (nonlinear_arith)
            requires
                0 <= cols <= 0xffff_ffff_ffff_ffff,
                0 <= step <= 0x4000_0000,
        ;
        assert(0 <= rows * step <= 0xffff_ffff_ffff_ffff * 0x4000_0000) by (nonlinear_arith)
            requires
                0 <= rows <= 0xffff_ffff_ffff_ffff,
                0 <= step <= 0x4000_0000,
        ;
        assert(0 <= cols * rows <= 0xffff_ffff_ffff_ffff * 0xffff_ffff_ffff_ffff) by (nonlinear_arith)
            requires
                0 <= cols <= 0xffff_ffff_ffff_ffff,
                0 <= rows <= 0xffff_ffff_ffff_ffff,
        ;
    }
    let width: i128 = cols as i128 * step as i128;
    let height: i128 = rows as i128 * step as i128;
    let x: i128 = center.x as i128 - remainder_of(center.x, step) as i128 - width / 2;
    let y: i128 = center.y as i128 - remainder_of(center.y, step) as i128 - height / 2;
    let count: u128 = cols as u128 * rows as u128;
    if x < i32::MIN as i128 || x + width > i32::MAX as i128 || y < i32::MIN as i128 || y + height
        > i32::MAX as i128 || count > usize::MAX as u128 {
        return None;
    }
    proof {
        assert(cols <= cols * step && rows <= rows * step) by (nonlinear_arith)
            requires
                cols >= 0,
                rows >= 0,
                step >= 1,
        ;
    }
    Some(
        GridGeometry {
            origin: Point { x: x as i32, y: y as i32 },
            step: Point { x: step, y: step },
            size: Index { x: cols as i64, y: rows as i64 },
        },
    )
}

/// A coordinate that is not negative, moved to the lattice and half of an
/// even number of tiles back, lies on the lattice, and the coordinate itself
/// lies in the tile in the middle.
proof fn lemma_centered_coordinate(c: int, half: int, step: int)
    requires
        c >= 0,
        half >= 0,
        step >= 1,
    ensures
        ({
            let begin = c - remainder(c, step) - ((2 * half) * step) / 2;
            &&& begin == (c / step - half) * step
            &&& begin % step == 0
            &&& (c - begin) / step == half
        }),
{
    let q = c / step;
    let r = c % step;
    lemma_fundamental_div_mod(c, step);
    lemma_floor_bounds(c, step);
    assert(step * q == q * step) by (nonlinear_arith);
    assert(((2 * half) * step) == 2 * (half * step)) by (nonlinear_arith);
    let begin = c - r - half * step;
    assert(begin == (q - half) * step) by (nonlinear_arith)
        requires
            begin == q * step - half * step,
    ;
    lemma_fundamental_div_mod_converse(begin, step, q - half, 0);
    lemma_floor_unique(c - begin, step, half);
}

/// A grid of an even number of columns and of rows round a centre whose
/// coordinates are not negative begins on the lattice of tiles, and the
/// centre lies in its middle: in the first tile of the upper right half.
pub proof fn lemma_centered_on_lattice(center: Point, cols: int, rows: int, zoom: nat)
    requires
        centered_grid(center, cols, rows, zoom) is Some,
        cols >= 0,
        rows >= 0,
        cols % 2 == 0,
        rows % 2 == 0,
        center.x >= 0,
        center.y >= 0,
    ensures
        ({
            let grid = centered_grid(center, cols, rows, zoom)->0;
            &&& (grid.origin.x as int) % (grid.step.x as int) == 0
            &&& (grid.origin.y as int) % (grid.step.y as int) == 0
            &&& grid.column(center.x as int) == cols / 2
            &&& grid.row(center.y as int) == rows / 2
            &&& cols >= 2 && rows >= 2 ==> grid.in_range(grid.lookup(center))
        }),
{
    let step = tile_step(zoom);
    lemma_tile_step_fits(zoom);
    lemma_centered_coordinate(center.x as int, cols / 2, step);
    lemma_centered_coordinate(center.y as int, rows / 2, step);
    assert(2 * (cols / 2) == cols && 2 * (rows / 2) == rows);
}

/// The extent of a tile is no more than the width of the map.
proof fn lemma_tile_step_fits(zoom: nat)
    ensures
        0 <= tile_step(zoom) <= MAP_WIDTH,
    decreases zoom,
{
    if zoom > 0 {
        lemma_tile_step_fits((zoom - 1) as nat);
    }
}

} // verus!
