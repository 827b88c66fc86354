use rustymon_world::geometry::bbox::BBox;
use rustymon_world::geometry::course::passes_by;
use rustymon_world::geometry::grid::{clip_point, Event, Grid, GridGeometry};
use rustymon_world::geometry::path::{clip_path, next_crossing, Crossing};
use rustymon_world::geometry::polygon::doubled_area_of;
use rustymon_world::geometry::strips::clip_polygon;
use rustymon_world::geometry::{Index, Point};

#[derive(Debug, Clone, PartialEq, Eq)]
enum Call {
    Enter(Index, Point),
    Step(Index, Point),
    Leave(Index, Point),
    Polygon(Index, Vec<Point>),
    Point(Index, Point),
}

struct Recorder {
    grid: GridGeometry,
    calls: Vec<Call>,
}

impl Grid for Recorder {
    type State = ();

    fn state(&self) -> Self::State {}

    fn geometry(&self) -> GridGeometry {
        self.grid
    }

    fn wf(&self) -> bool {
        true
    }

    fn idle(_state: Self::State) -> bool {
        true
    }

    fn in_path(_state: Self::State, _index: Index) -> bool {
        true
    }

    fn apply(_state: Self::State, _event: Event) -> Self::State {}

    fn lemma_geometry_wf(&self) {}

    fn index_range(&self) -> Index {
        self.grid.index_range()
    }

    fn tile_box(&self, index: Index) -> BBox {
        self.grid.tile_box(index)
    }

    fn lookup_point(&self, point: Point) -> Index {
        self.grid.lookup_point(point)
    }

    fn path_enter(&mut self, index: Index, point: Point) {
        self.calls.push(Call::Enter(index, point));
    }

    fn path_step(&mut self, index: Index, point: Point) {
        self.calls.push(Call::Step(index, point));
    }

    fn path_leave(&mut self, index: Index, point: Point) {
        self.calls.push(Call::Leave(index, point));
    }

    fn polygon_add(&mut self, index: Index, polygon: &[Point]) {
        self.calls.push(Call::Polygon(index, polygon.to_vec()));
    }

    fn point_add(&mut self, index: Index, point: Point) {
        self.calls.push(Call::Point(index, point));
    }
}

fn p(x: i32, y: i32) -> Point {
    Point { x, y }
}

fn ix(x: i64, y: i64) -> Index {
    Index { x, y }
}

fn two_by_two() -> Recorder {
    Recorder {
        grid: GridGeometry { origin: p(0, 0), step: p(500, 500), size: ix(2, 2) },
        calls: Vec::new(),
    }
}

fn path_calls(points: &[Point]) -> Vec<Call> {
    let mut target = two_by_two();
    clip_path(&mut target, points);
    target.calls
}

fn polygon_calls(ring: &[Point]) -> Vec<Call> {
    let mut target = two_by_two();
    clip_polygon(&mut target, ring);
    target.calls
}

#[test]
fn point_inside_grid_is_added_once() {
    let mut target = two_by_two();
    clip_point(&mut target, p(700, 100));
    assert_eq!(target.calls, vec![Call::Point(ix(1, 0), p(700, 100))]);
}

#[test]
fn point_outside_grid_is_dropped() {
    let mut target = two_by_two();
    clip_point(&mut target, p(-1, 100));
    clip_point(&mut target, p(1000, 100));
    clip_point(&mut target, p(100, -1));
    clip_point(&mut target, p(100, 1000));
    assert_eq!(target.calls, vec![]);
}

#[test]
fn point_on_shared_edge_belongs_to_upper_tile() {
    let mut target = two_by_two();
    clip_point(&mut target, p(500, 500));
    clip_point(&mut target, p(499, 500));
    clip_point(&mut target, p(0, 0));
    assert_eq!(
        target.calls,
        vec![
            Call::Point(ix(1, 1), p(500, 500)),
            Call::Point(ix(0, 1), p(499, 500)),
            Call::Point(ix(0, 0), p(0, 0)),
        ]
    );
}

#[test]
fn path_inside_one_tile() {
    assert_eq!(
        path_calls(&[p(10, 10), p(20, 30), p(40, 40)]),
        vec![
            Call::Enter(ix(0, 0), p(10, 10)),
            Call::Step(ix(0, 0), p(20, 30)),
            Call::Leave(ix(0, 0), p(40, 40)),
        ]
    );
}

#[test]
fn path_of_two_points_has_no_step() {
    assert_eq!(
        path_calls(&[p(510, 510), p(990, 990)]),
        vec![Call::Enter(ix(1, 1), p(510, 510)), Call::Leave(ix(1, 1), p(990, 990))]
    );
}

#[test]
fn path_crossing_shares_the_crossing_point() {
    assert_eq!(
        path_calls(&[p(400, 100), p(600, 200)]),
        vec![
            Call::Enter(ix(0, 0), p(400, 100)),
            Call::Leave(ix(0, 0), p(500, 150)),
            Call::Enter(ix(1, 0), p(500, 150)),
            Call::Leave(ix(1, 0), p(600, 200)),
        ]
    );
}

#[test]
fn path_crossing_backwards_meets_the_same_point() {
    assert_eq!(
        path_calls(&[p(600, 200), p(400, 100)]),
        vec![
            Call::Enter(ix(1, 0), p(600, 200)),
            Call::Leave(ix(1, 0), p(500, 150)),
            Call::Enter(ix(0, 0), p(500, 150)),
            Call::Leave(ix(0, 0), p(400, 100)),
        ]
    );
}

#[test]
fn crossing_point_is_rounded_down_in_both_directions() {
    assert_eq!(
        path_calls(&[p(499, 0), p(502, 1)]),
        vec![
            Call::Enter(ix(0, 0), p(499, 0)),
            Call::Leave(ix(0, 0), p(500, 0)),
            Call::Enter(ix(1, 0), p(500, 0)),
            Call::Leave(ix(1, 0), p(502, 1)),
        ]
    );
    assert_eq!(
        path_calls(&[p(502, 1), p(499, 0)]),
        vec![
            Call::Enter(ix(1, 0), p(502, 1)),
            Call::Leave(ix(1, 0), p(500, 0)),
            Call::Enter(ix(0, 0), p(500, 0)),
            Call::Leave(ix(0, 0), p(499, 0)),
        ]
    );
}

#[test]
fn path_through_a_corner_enters_the_opposite_tile() {
    assert_eq!(
        path_calls(&[p(400, 400), p(600, 600)]),
        vec![
            Call::Enter(ix(0, 0), p(400, 400)),
            Call::Leave(ix(0, 0), p(500, 500)),
            Call::Enter(ix(1, 1), p(500, 500)),
            Call::Leave(ix(1, 1), p(600, 600)),
        ]
    );
}

#[test]
fn path_through_three_tiles() {
    assert_eq!(
        path_calls(&[p(100, 450), p(900, 650)]),
        vec![
            Call::Enter(ix(0, 0), p(100, 450)),
            Call::Leave(ix(0, 0), p(300, 500)),
            Call::Enter(ix(0, 1), p(300, 500)),
            Call::Leave(ix(0, 1), p(500, 550)),
            Call::Enter(ix(1, 1), p(500, 550)),
            Call::Leave(ix(1, 1), p(900, 650)),
        ]
    );
}

#[test]
fn path_with_steps_on_both_sides_of_a_crossing() {
    assert_eq!(
        path_calls(&[p(100, 100), p(200, 100), p(800, 100), p(900, 100)]),
        vec![
            Call::Enter(ix(0, 0), p(100, 100)),
            Call::Step(ix(0, 0), p(200, 100)),
            Call::Leave(ix(0, 0), p(500, 100)),
            Call::Enter(ix(1, 0), p(500, 100)),
            Call::Step(ix(1, 0), p(800, 100)),
            Call::Leave(ix(1, 0), p(900, 100)),
        ]
    );
}

#[test]
fn path_leaving_the_grid_ends_at_its_edge() {
    assert_eq!(
        path_calls(&[p(900, 100), p(1100, 100)]),
        vec![Call::Enter(ix(1, 0), p(900, 100)), Call::Leave(ix(1, 0), p(1000, 100))]
    );
}

#[test]
fn path_coming_back_into_the_grid_starts_anew() {
    assert_eq!(
        path_calls(&[p(900, 100), p(1100, 100), p(1100, 900), p(900, 900)]),
        vec![
            Call::Enter(ix(1, 0), p(900, 100)),
            Call::Leave(ix(1, 0), p(1000, 100)),
            Call::Enter(ix(1, 1), p(1000, 900)),
            Call::Leave(ix(1, 1), p(900, 900)),
        ]
    );
}

#[test]
fn path_across_the_whole_grid() {
    assert_eq!(
        path_calls(&[p(-100, 250), p(1100, 250)]),
        vec![
            Call::Enter(ix(0, 0), p(0, 250)),
            Call::Leave(ix(0, 0), p(500, 250)),
            Call::Enter(ix(1, 0), p(500, 250)),
            Call::Leave(ix(1, 0), p(1000, 250)),
        ]
    );
}

#[test]
fn path_outside_the_grid_gives_no_callback() {
    assert_eq!(path_calls(&[p(-100, -100), p(-50, 2000), p(-1, 500)]), vec![]);
    assert_eq!(path_calls(&[p(1000, 0), p(2000, 700)]), vec![]);
    assert_eq!(path_calls(&[p(0, -1), p(900, -700)]), vec![]);
    assert_eq!(path_calls(&[p(0, 1000), p(900, 1000)]), vec![]);
}

#[test]
fn path_on_a_grid_without_tiles_gives_no_callback() {
    let mut target = Recorder {
        grid: GridGeometry { origin: p(0, 0), step: p(500, 500), size: ix(0, 2) },
        calls: Vec::new(),
    };
    clip_path(&mut target, &[p(10, 10), p(700, 700)]);
    clip_polygon(&mut target, &[p(10, 10), p(700, 10), p(700, 700)]);
    clip_point(&mut target, p(10, 10));
    assert_eq!(target.calls, vec![]);
}

#[test]
fn path_far_across_the_coordinate_range() {
    let calls = path_calls(&[p(i32::MIN, 250), p(i32::MAX, 250)]);
    assert_eq!(
        calls,
        vec![
            Call::Enter(ix(0, 0), p(0, 250)),
            Call::Leave(ix(0, 0), p(500, 250)),
            Call::Enter(ix(1, 0), p(500, 250)),
            Call::Leave(ix(1, 0), p(1000, 250)),
        ]
    );
}

#[test]
fn next_crossing_of_a_steep_segment() {
    let grid = GridGeometry { origin: p(0, 0), step: p(500, 500), size: ix(2, 2) };
    let c = next_crossing(&grid, p(450, 100), p(550, 900), ix(0, 0), ix(1, 1));
    assert_eq!(c, Crossing { next: ix(1, 1), point: p(500, 500) });
    let c = next_crossing(&grid, p(450, 100), p(550, 901), ix(0, 0), ix(1, 1));
    assert_eq!(c, Crossing { next: ix(0, 1), point: p(499, 500) });
    let c = next_crossing(&grid, p(450, 100), p(550, 899), ix(0, 0), ix(1, 1));
    assert_eq!(c, Crossing { next: ix(1, 0), point: p(500, 499) });
}

#[test]
fn ring_inside_one_tile_is_added_as_it_is() {
    let ring = [p(600, 100), p(900, 100), p(900, 400), p(600, 400)];
    assert_eq!(polygon_calls(&ring), vec![Call::Polygon(ix(1, 0), ring.to_vec())]);
}

#[test]
fn closed_ring_inside_one_tile_keeps_its_closing_point() {
    let ring = [p(600, 100), p(900, 100), p(900, 400), p(600, 100)];
    assert_eq!(polygon_calls(&ring), vec![Call::Polygon(ix(1, 0), ring.to_vec())]);
}

#[test]
fn ring_outside_the_grid_gives_no_callback() {
    assert_eq!(polygon_calls(&[p(-600, 100), p(-100, 100), p(-100, 400)]), vec![]);
    assert_eq!(polygon_calls(&[p(1000, 100), p(1900, 100), p(1900, 400)]), vec![]);
    assert_eq!(polygon_calls(&[p(100, -100), p(900, -100), p(900, -400)]), vec![]);
    assert_eq!(polygon_calls(&[p(100, 1000), p(900, 1000), p(900, 1400)]), vec![]);
}

#[test]
fn ring_round_a_corner_of_the_grid_gives_no_callback() {
    let ring = [p(-200, -100), p(-100, -100), p(-100, 200), p(-200, 200)];
    assert_eq!(polygon_calls(&ring), vec![]);
}

#[test]
fn degenerate_rings_are_dropped() {
    assert_eq!(polygon_calls(&[p(100, 100), p(200, 200)]), vec![]);
    assert_eq!(polygon_calls(&[p(100, 100), p(200, 200), p(300, 300)]), vec![]);
    assert_eq!(polygon_calls(&[]), vec![]);
}

#[test]
fn square_over_four_tiles() {
    let ring = [p(100, 100), p(900, 100), p(900, 900), p(100, 900)];
    assert_eq!(
        polygon_calls(&ring),
        vec![
            Call::Polygon(ix(0, 0), vec![p(100, 500), p(100, 100), p(500, 100), p(500, 500)]),
            Call::Polygon(ix(0, 1), vec![p(100, 500), p(500, 500), p(500, 900), p(100, 900)]),
            Call::Polygon(ix(1, 0), vec![p(500, 500), p(500, 100), p(900, 100), p(900, 500)]),
            Call::Polygon(ix(1, 1), vec![p(500, 500), p(900, 500), p(900, 900), p(500, 900)]),
        ]
    );
}

#[test]
fn ring_reaching_beyond_the_grid_is_cut_at_its_edge() {
    let ring = [p(-100, 100), p(1100, 100), p(1100, 400), p(-100, 400)];
    assert_eq!(
        polygon_calls(&ring),
        vec![
            Call::Polygon(ix(0, 0), vec![p(0, 100), p(500, 100), p(500, 400), p(0, 400)]),
            Call::Polygon(ix(1, 0), vec![p(500, 100), p(1000, 100), p(1000, 400), p(500, 400)]),
        ]
    );
}

#[test]
fn ring_touching_a_line_from_one_side_stays_in_its_tile() {
    let ring = [p(100, 100), p(500, 100), p(500, 400), p(100, 400)];
    assert_eq!(polygon_calls(&ring), vec![Call::Polygon(ix(0, 0), ring.to_vec())]);
}

#[test]
fn triangle_over_two_tiles() {
    let ring = [p(400, 100), p(600, 100), p(400, 300)];
    assert_eq!(
        polygon_calls(&ring),
        vec![
            Call::Polygon(ix(0, 0), vec![p(400, 100), p(500, 100), p(500, 200), p(400, 300)]),
            Call::Polygon(ix(1, 0), vec![p(500, 100), p(600, 100), p(500, 200)]),
        ]
    );
}

fn in_box(target: &Recorder, index: Index, point: Point) -> bool {
    target.grid.has_tile(index) && target.grid.tile_box(index).contains_point(point)
}

#[test]
fn every_piece_of_a_path_lies_in_its_tile() {
    let mut target = Recorder {
        grid: GridGeometry { origin: p(-7, 3), step: p(5, 3), size: ix(9, 11) },
        calls: Vec::new(),
    };
    let mut points = Vec::new();
    let mut x: i32 = -20;
    let mut y: i32 = 40;
    for i in 0..200 {
        points.push(p(x, y));
        x += (i * 37 % 23) - 11;
        y += (i * 53 % 29) - 15;
        if x < -30 || x > 60 {
            x = 10;
        }
        if y < -20 || y > 60 {
            y = 20;
        }
    }
    clip_path(&mut target, &points);
    assert!(target.calls.len() > 200);
    let mut open: Option<(Index, Point)> = None;
    for call in &target.calls {
        match *call {
            Call::Enter(index, point) => {
                assert!(in_box(&target, index, point));
                assert_eq!(open, None);
                open = Some((index, point));
            }
            Call::Step(index, point) => {
                assert!(in_box(&target, index, point));
                assert_eq!(open.map(|(at, _)| at), Some(index));
                assert_eq!(target.grid.lookup_point(point), index);
            }
            Call::Leave(index, point) => {
                assert!(in_box(&target, index, point));
                assert_eq!(open.map(|(at, _)| at), Some(index));
                open = None;
            }
            _ => panic!("a path gives no other callback"),
        }
    }
    assert_eq!(open, None);
}

#[test]
fn every_piece_of_a_ring_lies_in_its_tile() {
    let mut target = Recorder {
        grid: GridGeometry { origin: p(-7, 3), step: p(5, 3), size: ix(9, 11) },
        calls: Vec::new(),
    };
    let ring = [p(-20, 0), p(50, 10), p(13, 17), p(45, 50), p(0, 33), p(-15, 44), p(2, 20)];
    clip_polygon(&mut target, &ring);
    assert!(target.calls.len() > 20);
    let mut seen = Vec::new();
    for call in &target.calls {
        match call {
            Call::Polygon(index, piece) => {
                assert!(piece.len() >= 3);
                assert!(piece.iter().all(|point| in_box(&target, *index, *point)));
                assert!(!seen.contains(index));
                seen.push(*index);
            }
            _ => panic!("a ring gives no other callback"),
        }
    }
}

#[test]
fn path_past_a_corner_of_the_grid_gives_no_callback() {
    assert_eq!(path_calls(&[p(-100, 900), p(200, 1300)]), vec![]);
    assert_eq!(path_calls(&[p(200, 1300), p(-100, 900)]), vec![]);
    assert_eq!(path_calls(&[p(-1, 1), p(1, -1)]), vec![]);
    assert_eq!(path_calls(&[p(-500, 100), p(-1, 1000), p(1000, 1100), p(1100, 0), p(0, -1), p(-1, 0)]), vec![]);
}

#[test]
fn path_through_a_corner_of_the_grid_touches_it() {
    assert_eq!(
        path_calls(&[p(-1, 1), p(1, -1), p(3, -3)]),
        vec![]
    );
    assert_eq!(
        path_calls(&[p(-100, 100), p(100, -100)]),
        vec![]
    );
    assert_eq!(
        path_calls(&[p(-100, -100), p(100, 100)]),
        vec![Call::Enter(ix(0, 0), p(0, 0)), Call::Leave(ix(0, 0), p(100, 100))]
    );
}

#[test]
fn line_that_passes_the_grid_by() {
    let grid = GridGeometry { origin: p(0, 0), step: p(500, 500), size: ix(2, 2) };
    assert!(passes_by(&grid, p(-100, 900), p(200, 1300)));
    assert!(passes_by(&grid, p(200, 1300), p(-100, 900)));
    assert!(passes_by(&grid, p(-1, 0), p(-1, 1000)));
    assert!(!passes_by(&grid, p(0, 0), p(0, 1000)));
    assert!(!passes_by(&grid, p(-100, 100), p(100, -100)));
    assert!(!passes_by(&grid, p(-100, -100), p(1100, 1100)));
    assert!(!passes_by(&grid, p(2000, 500), p(3000, 500)));
    assert!(!passes_by(&grid, p(7, 7), p(7, 7)));
    let wide = GridGeometry { origin: p(i32::MIN, i32::MIN), step: p(i32::MAX, i32::MAX), size: ix(2, 2) };
    assert!(!passes_by(&wide, p(i32::MIN, i32::MAX), p(i32::MAX, i32::MIN)));
    assert!(passes_by(&wide, p(i32::MIN, i32::MAX), p(i32::MAX, i32::MAX)));
}

#[test]
fn rounding_a_cut_point_down_can_add_to_a_thin_piece() {
    let mut target = Recorder {
        grid: GridGeometry { origin: p(-999, -500), step: p(1000, 1000), size: ix(2, 1) },
        calls: Vec::new(),
    };
    let ring = [p(0, 0), p(1000, -1), p(1000, 0)];
    assert_eq!(doubled_area_of(&ring), 1000);
    clip_polygon(&mut target, &ring);
    assert_eq!(
        target.calls,
        vec![
            Call::Polygon(ix(0, 0), vec![p(1, 0), p(0, 0), p(1, -1)]),
            Call::Polygon(ix(1, 0), vec![p(1, 0), p(1, -1), p(1000, -1), p(1000, 0)]),
        ]
    );
    assert_eq!(doubled_area_of(&[p(1, 0), p(0, 0), p(1, -1)]), 1);
    assert_eq!(doubled_area_of(&[p(1, 0), p(1, -1), p(1000, -1), p(1000, 0)]), 1998);
}
