//! The tile grid, what a target of the clipping algorithms offers, and the
//! clipping of single points.
use vstd::prelude::*;
use crate::geometry::{Index, Point};
use crate::geometry::arith::{floor_div, lemma_floor_at_least, lemma_floor_bounds, lemma_floor_unique};
use crate::geometry::bbox::BBox;

verus! {

/// Where the grid lies: the lower corner of tile (0, 0), the extent of one
/// tile, and the number of columns and rows.
#[derive(Clone, Copy, Debug, PartialEq, Eq, Structural)]
pub struct GridGeometry {
    pub origin: Point,
    pub step: Point,
    pub size: Index,
}

impl GridGeometry {
    /// Tiles have a positive extent, and the whole grid lies within the
    /// coordinates that a [`Point`] can hold.
    pub open spec fn wf(self) -> bool {
        &&& self.step.x > 0
        &&& self.step.y > 0
        &&& self.size.x >= 0
        &&& self.size.y >= 0
        &&& self.origin.x + self.size.x * self.step.x <= i32::MAX
        &&& self.origin.y + self.size.y * self.step.y <= i32::MAX
    }

    /// The vertical line at which column `k` begins.
    pub open spec fn line_x(self, k: int) -> int {
        self.origin.x + k * self.step.x
    }

    /// The horizontal line at which row `k` begins.
    pub open spec fn line_y(self, k: int) -> int {
        self.origin.y + k * self.step.y
    }

    /// The column that holds the coordinate `x`.
    pub open spec fn column(self, x: int) -> int {
        (x - self.origin.x) / (self.step.x as int)
    }

    /// The row that holds the coordinate `y`.
    pub open spec fn row(self, y: int) -> int {
        (y - self.origin.y) / (self.step.y as int)
    }

    /// The tile that owns `p`: a point on a shared edge belongs to the tile
    /// above it in that coordinate.
    pub open spec fn lookup(self, p: Point) -> Index {
        Index { x: self.column(p.x as int) as i64, y: self.row(p.y as int) as i64 }
    }

    /// `index` names a tile of the grid.
    pub open spec fn in_range(self, index: Index) -> bool {
        0 <= index.x < self.size.x && 0 <= index.y < self.size.y
    }

    /// The box of the tile `index`.
    pub open spec fn cell(self, index: Index) -> BBox {
        BBox {
            min: Point { x: self.line_x(index.x as int) as i32, y: self.line_y(index.y as int) as i32 },
            max: Point {
                x: self.line_x(index.x + 1) as i32,
                y: self.line_y(index.y + 1) as i32,
            },
        }
    }

    /// The lines of a grid are ordered as their numbers are.
    pub proof fn lemma_lines_ordered(self, j: int, k: int)
        requires
            self.wf(),
            j <= k,
        ensures
            self.line_x(j) <= self.line_x(k),
            self.line_y(j) <= self.line_y(k),
            j < k ==> self.line_x(j) < self.line_x(k) && self.line_y(j) < self.line_y(k),
    {
        let sx = self.step.x as int;
        let sy = self.step.y as int;
        assert(j * sx <= k * sx && (j < k ==> j * sx < k * sx)) by (nonlinear_arith)
            requires
                j <= k,
                sx > 0,
        ;
        assert(j * sy <= k * sy && (j < k ==> j * sy < k * sy)) by (nonlinear_arith)
            requires
                j <= k,
                sy > 0,
        ;
    }

    /// The lines of the tiles of the grid are coordinates that a [`Point`]
    /// can hold.
    pub proof fn lemma_lines_fit(self, k: int)
        requires
            self.wf(),
        ensures
            0 <= k <= self.size.x ==> i32::MIN <= self.line_x(k) <= i32::MAX,
            0 <= k <= self.size.y ==> i32::MIN <= self.line_y(k) <= i32::MAX,
    {
        if 0 <= k <= self.size.x {
            self.lemma_lines_ordered(0, k);
            self.lemma_lines_ordered(k, self.size.x as int);
        }
        if 0 <= k <= self.size.y {
            self.lemma_lines_ordered(0, k);
            self.lemma_lines_ordered(k, self.size.y as int);
        }
    }

    /// A coordinate lies in its column: on or above the line at which the
    /// column begins, and below the next.
    pub proof fn lemma_column_bounds(self, x: int)
        requires
            self.wf(),
        ensures
            self.line_x(self.column(x)) <= x < self.line_x(self.column(x) + 1),
    {
        let s = self.step.x as int;
        let c = self.column(x);
        lemma_floor_bounds(x - self.origin.x, s);
        assert((c + 1) * s == c * s + s) by (nonlinear_arith);
    }

    /// A coordinate lies in its row.
    pub proof fn lemma_row_bounds(self, y: int)
        requires
            self.wf(),
        ensures
            self.line_y(self.row(y)) <= y < self.line_y(self.row(y) + 1),
    {
        let s = self.step.y as int;
        let r = self.row(y);
        lemma_floor_bounds(y - self.origin.y, s);
        assert((r + 1) * s == r * s + s) by (nonlinear_arith);
    }

    /// The column of `x` is at least `k` exactly when `x` lies on or above
    /// the line at which column `k` begins.
    pub proof fn lemma_column_at_least(self, x: int, k: int)
        requires
            self.wf(),
        ensures
            k <= self.column(x) <==> self.line_x(k) <= x,
    {
        lemma_floor_at_least(x - self.origin.x, self.step.x as int, k);
    }

    /// The row of `y` is at least `k` exactly when `y` lies on or above the
    /// line at which row `k` begins.
    pub proof fn lemma_row_at_least(self, y: int, k: int)
        requires
            self.wf(),
        ensures
            k <= self.row(y) <==> self.line_y(k) <= y,
    {
        lemma_floor_at_least(y - self.origin.y, self.step.y as int, k);
    }

    /// The column and row of a point are numbers that an [`Index`] holds.
    pub proof fn lemma_lookup_fits(self, p: Point)
        requires
            self.wf(),
        ensures
            self.lookup(p).x == self.column(p.x as int),
            self.lookup(p).y == self.row(p.y as int),
            -0x1_0000_0000 <= self.column(p.x as int) <= 0x1_0000_0000,
            -0x1_0000_0000 <= self.row(p.y as int) <= 0x1_0000_0000,
    {
        let sx = self.step.x as int;
        let sy = self.step.y as int;
        lemma_floor_at_least(p.x - self.origin.x, sx, -0x1_0000_0000);
        lemma_floor_at_least(p.x - self.origin.x, sx, 0x1_0000_0001);
        lemma_floor_at_least(p.y - self.origin.y, sy, -0x1_0000_0000);
        lemma_floor_at_least(p.y - self.origin.y, sy, 0x1_0000_0001);
        assert(-0x1_0000_0000 * sx <= -0x1_0000_0000 && 0x1_0000_0001 * sx >= 0x1_0000_0001)
            by (nonlinear_arith)
            requires
                sx >= 1,
        ;
        assert(-0x1_0000_0000 * sy <= -0x1_0000_0000 && 0x1_0000_0001 * sy >= 0x1_0000_0001)
            by (nonlinear_arith)
            requires
                sy >= 1,
        ;
    }

    /// Every point within the box of a tile, its lower edges included and its
    /// upper edges left out, is owned by that tile.
    pub proof fn lemma_lookup_inside(self, index: Index, p: Point)
        requires
            self.wf(),
            self.line_x(index.x as int) <= p.x < self.line_x(index.x + 1),
            self.line_y(index.y as int) <= p.y < self.line_y(index.y + 1),
        ensures
            self.lookup(p) == index,
    {
        let sx = self.step.x as int;
        let sy = self.step.y as int;
        let i = index.x as int;
        let j = index.y as int;
        assert((i + 1) * sx == i * sx + sx) by (nonlinear_arith);
        assert((j + 1) * sy == j * sy + sy) by (nonlinear_arith);
        lemma_floor_unique(p.x - self.origin.x, sx, i);
        lemma_floor_unique(p.y - self.origin.y, sy, j);
    }

    /// The box of the whole grid.
    pub open spec fn bbox(self) -> BBox {
        BBox {
            min: self.origin,
            max: Point { x: self.line_x(self.size.x as int) as i32, y: self.line_y(self.size.y as int) as i32 },
        }
    }

    /// A point that a tile of the grid owns lies in the box of the grid.
    pub proof fn lemma_owned_in_bbox(self, p: Point)
        requires
            self.wf(),
            self.in_range(self.lookup(p)),
        ensures
            self.bbox().contains(p),
    {
        self.lemma_lookup_fits(p);
        self.lemma_column_bounds(p.x as int);
        self.lemma_row_bounds(p.y as int);
        self.lemma_lines_fit(self.size.x as int);
        self.lemma_lines_fit(self.size.y as int);
        self.lemma_lines_ordered(0, self.column(p.x as int));
        self.lemma_lines_ordered(self.column(p.x as int) + 1, self.size.x as int);
        self.lemma_lines_ordered(0, self.row(p.y as int));
        self.lemma_lines_ordered(self.row(p.y as int) + 1, self.size.y as int);
        assert(0 * (self.step.x as int) == 0 && 0 * (self.step.y as int) == 0);
    }

    /// Computes [`GridGeometry::bbox`].
    pub fn bounds(&self) -> (r: BBox)
        requires
            self.wf(),
        ensures
            r == self.bbox(),
    {
        proof {
            self.lemma_lines_fit(self.size.x as int);
            self.lemma_lines_fit(self.size.y as int);
        }
        let x: i128 = line_at(self.origin.x, self.step.x, self.size.x);
        let y: i128 = line_at(self.origin.y, self.step.y, self.size.y);
        BBox { min: self.origin, max: Point { x: x as i32, y: y as i32 } }
    }

    /// The number of columns and rows.
    pub fn index_range(&self) -> (r: Index)
        ensures
            r == self.size,
    {
        self.size
    }

    /// Tests whether `index` names a tile of the grid.
    pub fn has_tile(&self, index: Index) -> (r: bool)
        ensures
            r == self.in_range(index),
    {
        0 <= index.x && index.x < self.size.x && 0 <= index.y && index.y < self.size.y
    }

    /// The tile that owns `point`, which may lie outside the grid.
    pub fn lookup_point(&self, point: Point) -> (r: Index)
        requires
            self.wf(),
        ensures
            r == self.lookup(point),
            r.x == self.column(point.x as int),
            r.y == self.row(point.y as int),
    {
        proof {
            self.lemma_lookup_fits(point);
        }
        let dx: i128 = point.x as i128 - self.origin.x as i128;
        let dy: i128 = point.y as i128 - self.origin.y as i128;
        let cx: i128 = floor_div(dx, self.step.x as i128);
        let cy: i128 = floor_div(dy, self.step.y as i128);
        Index { x: cx as i64, y: cy as i64 }
    }

    /// The box of the tile `index`, which may lie outside the grid, lies
    /// within the coordinates that a [`Point`] can hold.
    pub open spec fn box_fits(self, index: Index) -> bool {
        &&& i32::MIN <= self.line_x(index.x as int)
        &&& self.line_x(index.x + 1) <= i32::MAX
        &&& i32::MIN <= self.line_y(index.y as int)
        &&& self.line_y(index.y + 1) <= i32::MAX
    }

    /// The box of every tile of the grid lies within the coordinates that a
    /// [`Point`] can hold.
    pub proof fn lemma_tiles_fit(self, index: Index)
        requires
            self.wf(),
            self.in_range(index),
        ensures
            self.box_fits(index),
    {
        self.lemma_lines_fit(index.x as int);
        self.lemma_lines_fit(index.x + 1);
        self.lemma_lines_fit(index.y as int);
        self.lemma_lines_fit(index.y + 1);
    }

    /// The box of the tile `index`, in the grid or outside of it.
    pub fn tile_box(&self, index: Index) -> (r: BBox)
        requires
            self.wf(),
            self.box_fits(index),
        ensures
            r == self.cell(index),
            r.min.x == self.line_x(index.x as int),
            r.min.y == self.line_y(index.y as int),
            r.max.x == self.line_x(index.x + 1),
            r.max.y == self.line_y(index.y + 1),
    {
        proof {
            self.lemma_lines_ordered(index.x as int, index.x + 1);
            self.lemma_lines_ordered(index.y as int, index.y + 1);
            let sx = self.step.x as int;
            let sy = self.step.y as int;
            let i = index.x as int;
            let j = index.y as int;
            assert((i + 1) * sx == i * sx + sx) by (nonlinear_arith);
            assert((j + 1) * sy == j * sy + sy) by (nonlinear_arith);
            assert(-0x8000_0000_0000_0000 * 0x8000_0000 <= i * sx <= 0x8000_0000_0000_0000 * 0x8000_0000)
                by (nonlinear_arith)
                requires
                    -0x8000_0000_0000_0000 <= i <= 0x8000_0000_0000_0000,
                    0 <= sx <= 0x8000_0000,
            ;
            assert(-0x8000_0000_0000_0000 * 0x8000_0000 <= j * sy <= 0x8000_0000_0000_0000 * 0x8000_0000)
                by (nonlinear_arith)
                requires
                    -0x8000_0000_0000_0000 <= j <= 0x8000_0000_0000_0000,
                    0 <= sy <= 0x8000_0000,
            ;
        }
        let min_x: i128 = self.origin.x as i128 + index.x as i128 * self.step.x as i128;
        let min_y: i128 = self.origin.y as i128 + index.y as i128 * self.step.y as i128;
        let max_x: i128 = min_x + self.step.x as i128;
        let max_y: i128 = min_y + self.step.y as i128;
        BBox {
            min: Point { x: min_x as i32, y: min_y as i32 },
            max: Point { x: max_x as i32, y: max_y as i32 },
        }
    }
}

/// The coordinate of the line at which column or row `k` begins, for a grid
/// that begins at `origin` with tiles of extent `step`.
pub fn line_at(origin: i32, step: i32, k: i64) -> (line: i128)
    ensures
        line == origin + k * step,
{
    proof {
        assert(-0x8000_0000_0000_0000 * 0x8000_0000 <= k * step <= 0x8000_0000_0000_0000
            * 0x8000_0000) by (nonlinear_arith)
            requires
                -0x8000_0000_0000_0000 <= k <= 0x8000_0000_0000_0000,
                -0x8000_0000 <= step <= 0x8000_0000,
        ;
    }
    origin as i128 + k as i128 * step as i128
}

/// `point` lies in the box of the tile `index`, or on its edges.
pub open spec fn within_tile(grid: GridGeometry, index: Index, point: Point) -> bool {
    &&& grid.line_x(index.x as int) <= point.x <= grid.line_x(index.x + 1)
    &&& grid.line_y(index.y as int) <= point.y <= grid.line_y(index.y + 1)
}

/// The box of a tile of the grid holds the points that lie within the tile.
pub proof fn lemma_cell_holds(grid: GridGeometry, index: Index, point: Point)
    requires
        grid.wf(),
        grid.in_range(index),
    ensures
        grid.cell(index).contains(point) <==> within_tile(grid, index, point),
{
    grid.lemma_lines_fit(index.x as int);
    grid.lemma_lines_fit(index.x + 1);
    grid.lemma_lines_fit(index.y as int);
    grid.lemma_lines_fit(index.y + 1);
}

/// All the points lie on one side of the grid: left of it, right of it,
/// below it or above it.
pub open spec fn all_beside(grid: GridGeometry, points: Seq<Point>) -> bool {
    ||| forall|i: int| 0 <= i < points.len() ==> (#[trigger] grid.lookup(points[i])).x < 0
    ||| forall|i: int| 0 <= i < points.len() ==> (#[trigger] grid.lookup(points[i])).x >= grid.size.x
    ||| forall|i: int| 0 <= i < points.len() ==> (#[trigger] grid.lookup(points[i])).y < 0
    ||| forall|i: int| 0 <= i < points.len() ==> (#[trigger] grid.lookup(points[i])).y >= grid.size.y
}

/// One call of a mutation callback of a [`Grid`].
pub enum Event {
    /// A path begins in the tile, at the point.
    PathEnter(Index, Point),
    /// The path that is open in the tile goes on to the point.
    PathStep(Index, Point),
    /// The path that is open in the tile ends at the point.
    PathLeave(Index, Point),
    /// A closed ring lies in the tile.
    PolygonAdd(Index, Seq<Point>),
    /// A single point lies in the tile.
    PointAdd(Index, Point),
}

/// What the clipping algorithms need of the array of tiles that they fill.
///
/// A target has a state, which only its own callbacks change: each callback
/// takes the state to [`Grid::apply`] of the matching [`Event`]. A callback
/// with an index outside the grid changes nothing.
///
/// Paths are handed over piece by piece. A target is idle while no path is
/// open; `path_enter` opens a path in one tile of an idle target, `path_step`
/// extends it, and `path_leave` closes it and leaves the target idle again.
pub trait Grid {
    /// What the callbacks change.
    type State;

    /// The state of this target.
    spec fn state(&self) -> Self::State;

    /// The grid over which this target lies.
    spec fn geometry(&self) -> GridGeometry;

    /// The target is fit for use.
    spec fn wf(&self) -> bool;

    /// No path is open in any tile.
    spec fn idle(state: Self::State) -> bool;

    /// No path is open in any tile but, at most, the tile `index`.
    spec fn in_path(state: Self::State, index: Index) -> bool;

    /// The state after a callback.
    spec fn apply(state: Self::State, event: Event) -> Self::State;

    /// The grid of a target that is fit for use is well formed.
    proof fn lemma_geometry_wf(&self)
        requires
            self.wf(),
        ensures
            self.geometry().wf(),
    ;

    /// The number of columns and rows.
    fn index_range(&self) -> (r: Index)
        requires
            self.wf(),
        ensures
            r == self.geometry().size,
    ;

    /// The box of the tile `index`, in the grid or outside of it, where it
    /// lies within the coordinates that a [`Point`] can hold.
    fn tile_box(&self, index: Index) -> (r: BBox)
        requires
            self.wf(),
            self.geometry().box_fits(index),
        ensures
            r == self.geometry().cell(index),
    ;

    /// The tile that owns `point`, which may lie outside the grid.
    fn lookup_point(&self, point: Point) -> (r: Index)
        requires
            self.wf(),
        ensures
            r == self.geometry().lookup(point),
    ;

    /// A path begins in the tile `index`, at `point`.
    fn path_enter(&mut self, index: Index, point: Point)
        requires
            old(self).wf(),
            old(self).geometry().in_range(index) ==> Self::idle(old(self).state()),
        ensures
            final(self).wf(),
            final(self).geometry() == old(self).geometry(),
            final(self).state() == Self::apply(old(self).state(), Event::PathEnter(index, point)),
            !old(self).geometry().in_range(index) ==> final(self).state() == old(self).state(),
            old(self).geometry().in_range(index) ==> Self::in_path(final(self).state(), index),
    ;

    /// The path that is open in the tile `index` goes on to `point`.
    fn path_step(&mut self, index: Index, point: Point)
        requires
            old(self).wf(),
            old(self).geometry().in_range(index) ==> Self::in_path(old(self).state(), index),
        ensures
            final(self).wf(),
            final(self).geometry() == old(self).geometry(),
            final(self).state() == Self::apply(old(self).state(), Event::PathStep(index, point)),
            !old(self).geometry().in_range(index) ==> final(self).state() == old(self).state(),
            old(self).geometry().in_range(index) ==> Self::in_path(final(self).state(), index),
    ;

    /// The path that is open in the tile `index` ends at `point`.
    fn path_leave(&mut self, index: Index, point: Point)
        requires
            old(self).wf(),
            old(self).geometry().in_range(index) ==> Self::in_path(old(self).state(), index),
        ensures
            final(self).wf(),
            final(self).geometry() == old(self).geometry(),
            final(self).state() == Self::apply(old(self).state(), Event::PathLeave(index, point)),
            !old(self).geometry().in_range(index) ==> final(self).state() == old(self).state(),
            old(self).geometry().in_range(index) ==> Self::idle(final(self).state()),
    ;

    /// The closed ring `polygon` lies in the tile `index`.
    fn polygon_add(&mut self, index: Index, polygon: &[Point])
        requires
            old(self).wf(),
        ensures
            final(self).wf(),
            final(self).geometry() == old(self).geometry(),
            final(self).state() == Self::apply(old(self).state(), Event::PolygonAdd(index, polygon@)),
            !old(self).geometry().in_range(index) ==> final(self).state() == old(self).state(),
            Self::idle(old(self).state()) ==> Self::idle(final(self).state()),
    ;

    /// The single point `point` lies in the tile `index`.
    fn point_add(&mut self, index: Index, point: Point)
        requires
            old(self).wf(),
        ensures
            final(self).wf(),
            final(self).geometry() == old(self).geometry(),
            final(self).state() == Self::apply(old(self).state(), Event::PointAdd(index, point)),
            !old(self).geometry().in_range(index) ==> final(self).state() == old(self).state(),
            Self::idle(old(self).state()) ==> Self::idle(final(self).state()),
    ;
}

/// The state of a target after the callbacks `events`, in their order.
pub open spec fn replay<G: Grid>(state: G::State, events: Seq<Event>) -> G::State
    decreases events.len(),
{
    if events.len() == 0 {
        state
    } else {
        G::apply(replay::<G>(state, events.drop_last()), events.last())
    }
}

/// One more callback is applied to the state after those before it.
pub proof fn lemma_replay_push<G: Grid>(state: G::State, events: Seq<Event>, event: Event)
    ensures
        replay::<G>(state, events.push(event)) == G::apply(replay::<G>(state, events), event),
{
    assert(events.push(event).drop_last() =~= events);
}

/// Callbacks in two runs give what they give in one.
pub proof fn lemma_replay_concat<G: Grid>(state: G::State, first: Seq<Event>, second: Seq<Event>)
    ensures
        replay::<G>(state, first + second) == replay::<G>(replay::<G>(state, first), second),
    decreases second.len(),
{
    if second.len() == 0 {
        assert(first + second =~= first);
    } else {
        lemma_replay_concat::<G>(state, first, second.drop_last());
        assert((first + second).drop_last() =~= first + second.drop_last());
    }
}

/// The callbacks that a single point gives: one `point_add` for the tile that
/// owns it, if that tile is in the grid.
pub open spec fn point_events(grid: GridGeometry, point: Point) -> Seq<Event> {
    if grid.in_range(grid.lookup(point)) {
        seq![Event::PointAdd(grid.lookup(point), point)]
    } else {
        Seq::empty()
    }
}

/// Hands `point` to the tile that owns it. A point outside the grid is
/// dropped.
pub fn clip_point<G: Grid>(target: &mut G, point: Point)
    requires
        old(target).wf(),
    ensures
        final(target).wf(),
        final(target).geometry() == old(target).geometry(),
        final(target).state() == replay::<G>(
            old(target).state(),
            point_events(old(target).geometry(), point),
        ),
        G::idle(old(target).state()) ==> G::idle(final(target).state()),
{
    let index = target.lookup_point(point);
    let range = target.index_range();
    if 0 <= index.x && index.x < range.x && 0 <= index.y && index.y < range.y {
        proof {
            lemma_replay_push::<G>(
                target.state(),
                Seq::empty(),
                Event::PointAdd(index, point),
            );
            assert(Seq::<Event>::empty().push(Event::PointAdd(index, point)) =~= seq![
                Event::PointAdd(index, point),
            ]);
        }
        target.point_add(index, point);
    }
}

} // verus!
