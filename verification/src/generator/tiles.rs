//! The tiles of a grid as the target of the clipping algorithms.
use vstd::prelude::*;
use vstd::arithmetic::div_mod::lemma_fundamental_div_mod_converse;
use crate::formats::{Constructable, Content};
use crate::generator::Construction;
use crate::geometry::{Index, Point};
use crate::geometry::bbox::BBox;
use crate::geometry::grid::{lemma_replay_push, replay, Event, Grid, GridGeometry};
use crate::geometry::path::{
    crossing, distance, inner_steps, lemma_path_between_neighbours, lemma_path_in_one_tile, path_events,
};
use crate::geometry::polygon::doubled_area;
use crate::geometry::strips::{
    lemma_polygon_in_one_tile, lemma_rectangle_over_four_tiles, polygon_events, rectangle,
    rectangle_from_above,
};

verus! {

/// What one tile of a world holds: its content, and the points of the path
/// that is open in it.
pub struct TileState<F> {
    pub content: Content<F>,
    pub open: Seq<Point>,
}

/// What a world holds: its tiles row by row, and as what the feature at hand
/// appears, if a feature is at hand.
pub struct WorldState<F> {
    pub grid: GridGeometry,
    pub tiles: Seq<TileState<F>>,
    pub area_type: Option<F>,
    pub node_type: Option<F>,
    pub way_type: Option<F>,
}

impl<F> WorldState<F> {
    /// The place of the tile `index` among the tiles.
    pub open spec fn offset(self, index: Index) -> int {
        index.x + self.grid.size.x * index.y
    }

    /// This world with the tile `index` replaced.
    pub open spec fn with_tile(self, index: Index, tile: TileState<F>) -> Self {
        WorldState { tiles: self.tiles.update(self.offset(index), tile), ..self }
    }

    /// This world with one more point on the path that is open in the tile
    /// `index`.
    pub open spec fn extended(self, index: Index, point: Point) -> Self {
        let tile = self.tiles[self.offset(index)];
        self.with_tile(index, TileState { open: tile.open.push(point), ..tile })
    }

    /// This world after the path that is open in the tile `index` has ended at
    /// `point`: the tile has the path as one more line, if ways appear at
    /// all, and no path is open in it.
    pub open spec fn closed(self, index: Index, point: Point) -> Self {
        let tile = self.tiles[self.offset(index)];
        let line = tile.open.push(point);
        let content = match self.way_type {
            Some(category) => tile.content.with_line(line, category),
            None => tile.content,
        };
        self.with_tile(index, TileState { content, open: Seq::empty() })
    }

    /// This world with the ring `polygon` added to the tile `index`, if the
    /// ring has points and areas appear at all.
    pub open spec fn with_polygon(self, index: Index, polygon: Seq<Point>) -> Self {
        let tile = self.tiles[self.offset(index)];
        match self.area_type {
            Some(category) => if polygon.len() > 0 {
                self.with_tile(index, TileState { content: tile.content.with_area(polygon, category), ..tile })
            } else {
                self
            },
            None => self,
        }
    }

    /// This world with `point` added to the tile `index`, if nodes appear at
    /// all.
    pub open spec fn with_point(self, index: Index, point: Point) -> Self {
        let tile = self.tiles[self.offset(index)];
        match self.node_type {
            Some(category) => self.with_tile(
                index,
                TileState { content: tile.content.with_node(point, category), ..tile },
            ),
            None => self,
        }
    }

    /// This world after one callback. A callback for a tile outside the grid
    /// changes nothing.
    pub open spec fn apply(self, event: Event) -> Self {
        match event {
            Event::PathEnter(index, point) => if self.grid.in_range(index) {
                self.extended(index, point)
            } else {
                self
            },
            Event::PathStep(index, point) => if self.grid.in_range(index) {
                self.extended(index, point)
            } else {
                self
            },
            Event::PathLeave(index, point) => if self.grid.in_range(index) {
                self.closed(index, point)
            } else {
                self
            },
            Event::PolygonAdd(index, polygon) => if self.grid.in_range(index) {
                self.with_polygon(index, polygon)
            } else {
                self
            },
            Event::PointAdd(index, point) => if self.grid.in_range(index) {
                self.with_point(index, point)
            } else {
                self
            },
        }
    }

    /// No path is open in any tile.
    pub open spec fn idle(self) -> bool {
        forall|i: int| 0 <= i < self.tiles.len() ==> (#[trigger] self.tiles[i]).open.len() == 0
    }

    /// No path is open in any tile but, at most, the tile `index`.
    pub open spec fn in_path(self, index: Index) -> bool {
        forall|i: int|
            0 <= i < self.tiles.len() && i != self.offset(index) ==> (#[trigger] self.tiles[i]).open.len()
                == 0
    }
}

/// The tiles of a grid, row by row, as the target of the clipping
/// algorithms: each callback files its geometry into the tile that it names.
pub struct TileArray<T, F> {
    pub grid: GridGeometry,
    /// The tiles, row by row.
    pub tiles: Vec<Construction<T>>,
    /// As what the area at hand appears, if one is at hand.
    pub area_type: Option<F>,
    /// As what the node at hand appears, if one is at hand.
    pub node_type: Option<F>,
    /// As what the way at hand appears, if one is at hand.
    pub way_type: Option<F>,
}

impl<T: Constructable<F>, F: Copy> TileArray<T, F> {
    /// What the tiles hold.
    pub open spec fn tile_states(&self) -> Seq<TileState<F>> {
        self.tiles@.map_values(
            |tile: Construction<T>| TileState { content: tile.constructing.content(), open: tile.wip_way@ },
        )
    }

    /// The grid is well formed and there is one tile for each of its cells.
    pub open spec fn inv(&self) -> bool {
        &&& self.grid.wf()
        &&& self.tiles@.len() == self.grid.size.x * self.grid.size.y
    }

    /// The offset of an index of the grid lies among the tiles.
    pub proof fn lemma_offset_in_range(&self, index: Index)
        requires
            self.inv(),
            self.grid.in_range(index),
        ensures
            0 <= self@.offset(index) < self.tiles@.len(),
            0 <= self.grid.size.x * index.y <= self.tiles@.len(),
    {
        let w = self.grid.size.x as int;
        let h = self.grid.size.y as int;
        let y = index.y as int;
        assert(0 <= w * y) by (nonlinear_arith)
            requires
                w >= 0,
                y >= 0,
        ;
        assert(w * y + w <= w * h) by (nonlinear_arith)
            requires
                w >= 0,
                0 <= y < h,
        ;
    }

    /// The place of the tile `index` among the tiles, if it is a tile of the
    /// grid.
    pub fn tile_offset(&self, index: Index) -> (r: Option<usize>)
        requires
            self.inv(),
        ensures
            match r {
                Some(i) => self.grid.in_range(index) && i == self@.offset(index) && i < self.tiles@.len(),
                None => !self.grid.in_range(index),
            },
    {
        if index.x < 0 || self.grid.size.x <= index.x || index.y < 0 || self.grid.size.y <= index.y {
            return None;
        }
        let count = self.tiles.len();
        proof {
            self.lemma_offset_in_range(index);
            assert(self.tiles@.len() == count);
        }
        let offset: i128 = index.x as i128 + self.grid.size.x as i128 * index.y as i128;
        Some(offset as usize)
    }
}

impl<T: Constructable<F>, F: Copy> View for TileArray<T, F> {
    type V = WorldState<F>;

    /// What this world holds.
    open spec fn view(&self) -> WorldState<F> {
        WorldState {
            grid: self.grid,
            tiles: self.tile_states(),
            area_type: self.area_type,
            node_type: self.node_type,
            way_type: self.way_type,
        }
    }
}

impl<T: Constructable<F>, F: Copy> Grid for TileArray<T, F> {
    type State = WorldState<F>;

    open spec fn state(&self) -> WorldState<F> {
        self@
    }

    open spec fn geometry(&self) -> GridGeometry {
        self.grid
    }

    open spec fn wf(&self) -> bool {
        self.inv()
    }

    open spec fn idle(state: WorldState<F>) -> bool {
        state.idle()
    }

    open spec fn in_path(state: WorldState<F>, index: Index) -> bool {
        state.in_path(index)
    }

    open spec fn apply(state: WorldState<F>, event: Event) -> WorldState<F> {
        state.apply(event)
    }

    proof fn lemma_geometry_wf(&self) {
    }

    fn index_range(&self) -> (r: Index) {
        self.grid.size
    }

    fn tile_box(&self, index: Index) -> (r: BBox) {
        self.grid.tile_box(index)
    }

    fn lookup_point(&self, point: Point) -> (r: Index) {
        self.grid.lookup_point(point)
    }

    fn path_enter(&mut self, index: Index, point: Point) {
        if let Some(i) = self.tile_offset(index) {
            self.tiles[i].wip_way.push(point);
            assert(self@.tiles =~= old(self)@.extended(index, point).tiles);
        }
    }

    fn path_step(&mut self, index: Index, point: Point) {
        if let Some(i) = self.tile_offset(index) {
            self.tiles[i].wip_way.push(point);
            assert(self@.tiles =~= old(self)@.extended(index, point).tiles);
        }
    }

    fn path_leave(&mut self, index: Index, point: Point) {
        let way_type = self.way_type;
        if let Some(i) = self.tile_offset(index) {
            let tile = &mut self.tiles[i];
            tile.wip_way.push(point);
            if let Some(category) = way_type {
                tile.constructing.add_line(tile.wip_way.as_slice(), category);
            }
            tile.wip_way.clear();
            assert(self@.tiles =~= old(self)@.closed(index, point).tiles);
        }
    }

    fn polygon_add(&mut self, index: Index, polygon: &[Point]) {
        let area_type = self.area_type;
        if let Some(i) = self.tile_offset(index) {
            if polygon.len() > 0 {
                if let Some(category) = area_type {
                    self.tiles[i].constructing.add_area(polygon, category);
                    assert(self@.tiles =~= old(self)@.with_polygon(index, polygon@).tiles);
                }
            }
        }
    }

    fn point_add(&mut self, index: Index, point: Point) {
        let node_type = self.node_type;
        if let Some(i) = self.tile_offset(index) {
            if let Some(category) = node_type {
                self.tiles[i].constructing.add_node(point, category);
                assert(self@.tiles =~= old(self)@.with_point(index, point).tiles);
            }
        }
    }
}

impl<T: Constructable<F>, F: Copy> TileArray<T, F> {
    /// The index of the tile at the place `i` among the tiles.
    pub open spec fn index_at(grid: GridGeometry, i: int) -> Index {
        Index { x: (i % (grid.size.x as int)) as i64, y: (i / (grid.size.x as int)) as i64 }
    }

    /// The tile is empty, for the box of the cell at the place `i`, and no
    /// path is open in it.
    pub open spec fn is_fresh(tile: Construction<T>, grid: GridGeometry, i: int) -> bool {
        &&& tile.constructing.content() == Content::<F>::empty(grid.cell(Self::index_at(grid, i)))
        &&& tile.wip_way@.len() == 0
    }

    /// No feature is at hand.
    pub open spec fn resting(&self) -> bool {
        self.area_type is None && self.node_type is None && self.way_type is None
    }

    /// The tiles are fit to take the next feature: no feature is at hand and
    /// no path is open.
    pub open spec fn ready(&self) -> bool {
        self.inv() && self.resting() && self@.idle()
    }

    /// Callbacks change the tiles alone: the grid and what the feature at hand
    /// appears as stay.
    pub proof fn lemma_replay_keeps(state: WorldState<F>, events: Seq<Event>)
        ensures
            replay::<Self>(state, events).grid == state.grid,
            replay::<Self>(state, events).area_type == state.area_type,
            replay::<Self>(state, events).node_type == state.node_type,
            replay::<Self>(state, events).way_type == state.way_type,
        decreases events.len(),
    {
        if events.len() > 0 {
            Self::lemma_replay_keeps(state, events.drop_last());
        }
    }

    /// Empty tiles for the cells of `grid`.
    pub fn new(grid: GridGeometry) -> (array: Self)
        requires
            grid.wf(),
            grid.size.x * grid.size.y <= usize::MAX,
        ensures
            array.ready(),
            array.grid == grid,
            forall|i: int| 0 <= i < array.tiles@.len() ==> Self::is_fresh(#[trigger] array.tiles@[i], grid, i),
    {
        let mut tiles: Vec<Construction<T>> = Vec::new();
        let cols = grid.size.x;
        let rows = grid.size.y;
        let mut y: i64 = 0;
        while y < rows
            invariant
                grid.wf(),
                cols == grid.size.x,
                rows == grid.size.y,
                0 <= y <= rows,
                tiles@.len() == y * cols,
                forall|i: int| 0 <= i < tiles@.len() ==> Self::is_fresh(#[trigger] tiles@[i], grid, i),
            decreases rows - y,
        {
            let mut x: i64 = 0;
            while x < cols
                invariant
                    grid.wf(),
                    cols == grid.size.x,
                    rows == grid.size.y,
                    0 <= y < rows,
                    0 <= x <= cols,
                    tiles@.len() == y * cols + x,
                    forall|i: int| 0 <= i < tiles@.len() ==> Self::is_fresh(#[trigger] tiles@[i], grid, i),
                decreases cols - x,
            {
                let index = Index { x, y };
                proof {
                    grid.lemma_tiles_fit(index);
                }
                let tile = T::new(grid.tile_box(index));
                proof {
                    let i = tiles@.len() as int;
                    assert(i == y * cols + x);
                    lemma_fundamental_div_mod_converse(i, cols as int, y as int, x as int);
                    assert(Self::index_at(grid, i) == index);
                }
                tiles.push(Construction { constructing: tile, wip_way: Vec::new() });
                x = x + 1;
            }
            proof {
                assert(y * cols + cols == (y + 1) * cols) by (nonlinear_arith);
            }
            y = y + 1;
        }
        proof {
            assert(rows * cols == cols * rows) by (nonlinear_arith);
        }
        TileArray { grid, tiles, area_type: None, node_type: None, way_type: None }
    }

    /// The tiles as they are, row by row.
    pub fn into_tiles(self) -> (tiles: Vec<T>)
        ensures
            tiles@.len() == self.tiles@.len(),
            forall|i: int| 0 <= i < tiles@.len() ==> #[trigger] tiles@[i] == self.tiles@[i].constructing,
    {
        let mut rest = self.tiles;
        let ghost all = rest@;
        let mut reversed: Vec<T> = Vec::new();
        while rest.len() > 0
            invariant
                rest@.len() + reversed@.len() == all.len(),
                rest@ == all.subrange(0, rest@.len() as int),
                forall|i: int|
                    0 <= i < reversed@.len() ==> #[trigger] reversed@[i] == all[all.len() - 1 - i].constructing,
            decreases rest@.len(),
        {
            match rest.pop() {
                Some(tile) => {
                    reversed.push(tile.constructing);
                },
                None => {},
            }
        }
        let mut tiles: Vec<T> = Vec::new();
        let ghost turned = reversed@;
        while reversed.len() > 0
            invariant
                turned.len() == all.len(),
                reversed@.len() + tiles@.len() == turned.len(),
                reversed@ == turned.subrange(0, reversed@.len() as int),
                forall|i: int| 0 <= i < turned.len() ==> #[trigger] turned[i] == all[all.len() - 1 - i].constructing,
                forall|i: int| 0 <= i < tiles@.len() ==> #[trigger] tiles@[i] == all[i].constructing,
            decreases reversed@.len(),
        {
            match reversed.pop() {
                Some(tile) => {
                    tiles.push(tile);
                },
                None => {},
            }
        }
        tiles
    }
}

impl<F> WorldState<F> {
    /// This world with the whole line `line` filed into the tile `index`, if
    /// ways appear at all, and no path open in that tile.
    pub open spec fn with_line(self, index: Index, line: Seq<Point>) -> Self {
        let tile = self.tiles[self.offset(index)];
        let content = match self.way_type {
            Some(category) => tile.content.with_line(line, category),
            None => tile.content,
        };
        self.with_tile(index, TileState { content, open: Seq::empty() })
    }

    /// This world with the points `open` on the path that is open in the
    /// tile `index`.
    pub open spec fn with_open(self, index: Index, open: Seq<Point>) -> Self {
        let tile = self.tiles[self.offset(index)];
        self.with_tile(index, TileState { open, ..tile })
    }
}

impl<T: Constructable<F>, F: Copy> TileArray<T, F> {
    proof fn lemma_steps_in_one_tile(state: WorldState<F>, points: Seq<Point>, index: Index, k: nat)
        requires
            k + 1 < points.len(),
            state.grid.in_range(index),
            0 <= state.offset(index) < state.tiles.len(),
            state.tiles[state.offset(index)].open.len() == 0,
        ensures
            replay::<Self>(
                state,
                seq![Event::PathEnter(index, points[0])] + inner_steps(index, points, k),
            ) == state.with_open(index, points.subrange(0, k as int + 1)),
        decreases k,
    {
        let enter = seq![Event::PathEnter(index, points[0])];
        let tile = state.tiles[state.offset(index)];
        if k == 0 {
            assert(enter + inner_steps(index, points, 0) =~= Seq::<Event>::empty().push(
                Event::PathEnter(index, points[0]),
            ));
            lemma_replay_push::<Self>(state, Seq::empty(), Event::PathEnter(index, points[0]));
            assert(tile.open.push(points[0]) =~= points.subrange(0, 1));
        } else {
            Self::lemma_steps_in_one_tile(state, points, index, (k - 1) as nat);
            let before = enter + inner_steps(index, points, (k - 1) as nat);
            assert(enter + inner_steps(index, points, k) =~= before.push(
                Event::PathStep(index, points[k as int]),
            ));
            lemma_replay_push::<Self>(state, before, Event::PathStep(index, points[k as int]));
            let mid = state.with_open(index, points.subrange(0, k as int));
            assert(points.subrange(0, k as int).push(points[k as int]) =~= points.subrange(0, k as int + 1));
            assert(mid.extended(index, points[k as int]).tiles =~= state.with_open(
                index,
                points.subrange(0, k as int + 1),
            ).tiles);
        }
    }

    /// A path that lies in one tile of the grid becomes one line of that
    /// tile, with all its points in their order, and nothing else changes.
    pub proof fn lemma_path_in_one_tile_is_one_line(state: WorldState<F>, points: Seq<Point>, index: Index)
        requires
            points.len() >= 2,
            state.grid.in_range(index),
            0 <= state.offset(index) < state.tiles.len(),
            state.tiles[state.offset(index)].open.len() == 0,
            forall|i: int| 0 <= i < points.len() ==> #[trigger] state.grid.lookup(points[i]) == index,
        ensures
            replay::<Self>(state, path_events(state.grid, points)) == state.with_line(index, points),
    {
        let n = points.len();
        let last = points[n - 1];
        lemma_path_in_one_tile(state.grid, points, index);
        Self::lemma_steps_in_one_tile(state, points, index, (n - 2) as nat);
        let before = seq![Event::PathEnter(index, points[0])] + inner_steps(index, points, (n - 2) as nat);
        assert(path_events(state.grid, points) =~= before.push(Event::PathLeave(index, last)));
        lemma_replay_push::<Self>(state, before, Event::PathLeave(index, last));
        let mid = state.with_open(index, points.subrange(0, n - 1));
        assert(points.subrange(0, n - 1).push(last) =~= points);
        assert(mid.closed(index, last).tiles =~= state.with_line(index, points).tiles);
    }

    /// A ring that lies in one tile of the grid, has three points or more
    /// and encloses an area becomes one area of that tile, with all its
    /// points in their order, and nothing else changes.
    pub proof fn lemma_polygon_in_one_tile_is_one_area(state: WorldState<F>, ring: Seq<Point>, index: Index)
        requires
            state.grid.wf(),
            state.grid.in_range(index),
            ring.len() >= 3,
            doubled_area(ring) != 0,
            forall|i: int| 0 <= i < ring.len() ==> #[trigger] state.grid.lookup(ring[i]) == index,
        ensures
            replay::<Self>(state, polygon_events(state.grid, ring)) == state.with_polygon(index, ring),
    {
        lemma_polygon_in_one_tile(state.grid, ring, index);
        assert(polygon_events(state.grid, ring) =~= Seq::<Event>::empty().push(
            Event::PolygonAdd(index, ring),
        ));
        lemma_replay_push::<Self>(state, Seq::empty(), Event::PolygonAdd(index, ring));
    }
}

impl<T: Constructable<F>, F: Copy> TileArray<T, F> {
    /// A rectangle that lies over the point at which the four tiles of a grid
    /// of two by two tiles meet becomes one area of each of the four tiles:
    /// in each the rectangle between the lines of the grid and the edges of
    /// the whole that lie in the tile.
    pub proof fn lemma_rectangle_is_four_areas(state: WorldState<F>, lo: Point, hi: Point)
        requires
            state.grid.wf(),
            state.grid.size.x == 2,
            state.grid.size.y == 2,
            state.grid.line_x(0) <= lo.x < state.grid.line_x(1) < hi.x < state.grid.line_x(2),
            state.grid.line_y(0) <= lo.y < state.grid.line_y(1) < hi.y < state.grid.line_y(2),
        ensures
            ({
                let mx = state.grid.line_x(1) as i32;
                let my = state.grid.line_y(1) as i32;
                replay::<Self>(state, polygon_events(state.grid, rectangle(lo, hi))) == state.with_polygon(
                    Index { x: 0, y: 0 },
                    rectangle_from_above(lo, Point { x: mx, y: my }),
                ).with_polygon(
                    Index { x: 0, y: 1 },
                    rectangle(Point { x: lo.x, y: my }, Point { x: mx, y: hi.y }),
                ).with_polygon(
                    Index { x: 1, y: 0 },
                    rectangle_from_above(Point { x: mx, y: lo.y }, Point { x: hi.x, y: my }),
                ).with_polygon(Index { x: 1, y: 1 }, rectangle(Point { x: mx, y: my }, hi))
            }),
    {
        let mx = state.grid.line_x(1) as i32;
        let my = state.grid.line_y(1) as i32;
        let e0 = Event::PolygonAdd(Index { x: 0, y: 0 }, rectangle_from_above(lo, Point { x: mx, y: my }));
        let e1 = Event::PolygonAdd(
            Index { x: 0, y: 1 },
            rectangle(Point { x: lo.x, y: my }, Point { x: mx, y: hi.y }),
        );
        let e2 = Event::PolygonAdd(
            Index { x: 1, y: 0 },
            rectangle_from_above(Point { x: mx, y: lo.y }, Point { x: hi.x, y: my }),
        );
        let e3 = Event::PolygonAdd(Index { x: 1, y: 1 }, rectangle(Point { x: mx, y: my }, hi));
        lemma_rectangle_over_four_tiles(state.grid, lo, hi);
        let none = Seq::<Event>::empty();
        assert(polygon_events(state.grid, rectangle(lo, hi)) =~= none.push(e0).push(e1).push(e2).push(e3));
        lemma_replay_push::<Self>(state, none, e0);
        lemma_replay_push::<Self>(state, none.push(e0), e1);
        lemma_replay_push::<Self>(state, none.push(e0).push(e1), e2);
        lemma_replay_push::<Self>(state, none.push(e0).push(e1).push(e2), e3);
    }
}

impl<T: Constructable<F>, F: Copy> TileArray<T, F> {
    /// A path of two points in two tiles of the grid that share an edge
    /// becomes one line of each of the two tiles: in the first from the
    /// first point to the point at which the path meets the edge, in the
    /// second from that very point to the second point. Nothing else changes.
    pub proof fn lemma_path_between_neighbours_is_two_lines(state: WorldState<F>, p: Point, q: Point)
        requires
            state.grid.in_range(state.grid.lookup(p)),
            state.grid.in_range(state.grid.lookup(q)),
            distance(state.grid.lookup(p), state.grid.lookup(q)) == 1,
            0 <= state.offset(state.grid.lookup(p)) < state.tiles.len(),
            0 <= state.offset(state.grid.lookup(q)) < state.tiles.len(),
            state.tiles[state.offset(state.grid.lookup(p))].open.len() == 0,
            state.tiles[state.offset(state.grid.lookup(q))].open.len() == 0,
        ensures
            ({
                let a = state.grid.lookup(p);
                let b = state.grid.lookup(q);
                let c = crossing(state.grid, p, q, a, b).point;
                replay::<Self>(state, path_events(state.grid, seq![p, q])) == state.with_line(
                    a,
                    seq![p, c],
                ).with_line(b, seq![c, q])
            }),
    {
        let a = state.grid.lookup(p);
        let b = state.grid.lookup(q);
        let c = crossing(state.grid, p, q, a, b).point;
        let e0 = Event::PathEnter(a, p);
        let e1 = Event::PathLeave(a, c);
        let e2 = Event::PathEnter(b, c);
        let e3 = Event::PathLeave(b, q);
        lemma_path_between_neighbours(state.grid, p, q);
        let none = Seq::<Event>::empty();
        assert(path_events(state.grid, seq![p, q]) =~= none.push(e0).push(e1).push(e2).push(e3));
        lemma_replay_push::<Self>(state, none, e0);
        lemma_replay_push::<Self>(state, none.push(e0), e1);
        lemma_replay_push::<Self>(state, none.push(e0).push(e1), e2);
        lemma_replay_push::<Self>(state, none.push(e0).push(e1).push(e2), e3);
        let s1 = state.extended(a, p);
        let s2 = s1.closed(a, c);
        let s3 = s2.extended(b, c);
        let s4 = s3.closed(b, q);
        assert(state.offset(a) != state.offset(b)) by {
            assert(a != b);
            let w = state.grid.size.x as int;
            assert(a.x + w * a.y != b.x + w * b.y) by (nonlinear_arith)
                requires
                    0 <= a.x < w,
                    0 <= b.x < w,
                    (a.x != b.x && a.y == b.y) || (a.x == b.x && (a.y == b.y + 1 || b.y == a.y + 1)),
            ;
        }
        assert(Seq::<Point>::empty().push(p).push(c) =~= seq![p, c]);
        assert(Seq::<Point>::empty().push(c).push(q) =~= seq![c, q]);
        assert(state.tiles[state.offset(a)].open =~= Seq::<Point>::empty());
        assert(state.tiles[state.offset(b)].open =~= Seq::<Point>::empty());
        assert(s2.tiles =~= state.with_line(a, seq![p, c]).tiles);
        assert(s2 == state.with_line(a, seq![p, c]));
        assert(s4.tiles =~= s2.with_line(b, seq![c, q]).tiles);
    }
}

} // verus!
