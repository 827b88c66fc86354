use rustymon_world::geometry::arith::{floor_div, interpolate_at};
use rustymon_world::geometry::bbox::BBox;
use rustymon_world::geometry::grid::{line_at, GridGeometry};
use rustymon_world::geometry::polygon::{
    bounds_of, clip_ring, combine_rings, cut_edge, doubled_area_of, Axis,
};
use rustymon_world::geometry::{Index, Point};

fn p(x: i32, y: i32) -> Point {
    Point { x, y }
}

fn grid() -> GridGeometry {
    GridGeometry { origin: p(-1000, 200), step: p(500, 250), size: Index { x: 4, y: 3 } }
}

#[test]
fn floor_div_rounds_towards_minus_infinity() {
    assert_eq!(floor_div(7, 2), 3);
    assert_eq!(floor_div(-7, 2), -4);
    assert_eq!(floor_div(-8, 2), -4);
    assert_eq!(floor_div(-1, 3), -1);
    assert_eq!(floor_div(0, 3), 0);
    assert_eq!(floor_div(i128::MIN, 1), i128::MIN);
    assert_eq!(floor_div(i128::MIN, 2), i128::MIN / 2);
    assert_eq!(floor_div(i128::MIN + 1, 2), i128::MIN / 2);
}

#[test]
fn interpolate_is_exact_at_the_ends_and_rounds_down_between() {
    assert_eq!(interpolate_at(0, 10, 10, 20, 0), 10);
    assert_eq!(interpolate_at(0, 10, 10, 20, 10), 20);
    assert_eq!(interpolate_at(0, 10, 10, 20, 5), 15);
    assert_eq!(interpolate_at(0, 0, 3, 1, 1), 0);
    assert_eq!(interpolate_at(0, 0, 3, 1, 2), 0);
    assert_eq!(interpolate_at(0, 0, 3, -1, 1), -1);
    assert_eq!(interpolate_at(3, 1, 0, 0, 1), 0);
    assert_eq!(interpolate_at(3, -1, 0, 0, 1), -1);
}

#[test]
fn interpolate_at_the_limits_of_the_coordinates() {
    assert_eq!(interpolate_at(i32::MIN, i32::MIN, i32::MAX, i32::MAX, 0), 0);
    assert_eq!(interpolate_at(i32::MIN, i32::MAX, i32::MAX, i32::MIN, 0), -1);
    assert_eq!(interpolate_at(i32::MIN, i32::MAX, i32::MAX, i32::MIN, i32::MAX), i32::MIN);
}

#[test]
fn lookup_point_inside_a_tile_gives_that_tile() {
    let g = grid();
    let index = Index { x: 2, y: 1 };
    let tile = g.tile_box(index);
    assert_eq!(tile, BBox { min: p(0, 450), max: p(500, 700) });
    assert_eq!(g.lookup_point(p(1, 451)), index);
    assert_eq!(g.lookup_point(p(499, 699)), index);
    assert_eq!(g.lookup_point(p(250, 600)), index);
    assert_eq!(g.lookup_point(tile.min), index);
    assert_eq!(g.lookup_point(tile.max), Index { x: 3, y: 2 });
}

#[test]
fn lookup_point_outside_the_grid_is_out_of_range() {
    let g = grid();
    assert_eq!(g.lookup_point(p(-1001, 199)), Index { x: -1, y: -1 });
    assert_eq!(g.lookup_point(p(-1501, -51)), Index { x: -2, y: -2 });
    assert_eq!(g.lookup_point(p(1000, 950)), Index { x: 4, y: 3 });
    assert!(!g.has_tile(Index { x: -1, y: 0 }));
    assert!(!g.has_tile(Index { x: 4, y: 0 }));
    assert!(!g.has_tile(Index { x: 0, y: 3 }));
    assert!(g.has_tile(Index { x: 3, y: 2 }));
    assert!(g.has_tile(Index { x: 0, y: 0 }));
    assert_eq!(g.index_range(), Index { x: 4, y: 3 });
}

#[test]
fn lookup_point_at_the_limits_of_the_coordinates() {
    let g = GridGeometry { origin: p(i32::MAX - 1, i32::MIN), step: p(1, 1), size: Index { x: 1, y: 1 } };
    assert_eq!(g.lookup_point(p(i32::MIN, i32::MAX)), Index { x: -4294967294, y: 4294967295 });
    assert_eq!(g.lookup_point(p(i32::MAX - 1, i32::MIN)), Index { x: 0, y: 0 });
    assert_eq!(
        g.tile_box(Index { x: 0, y: 0 }),
        BBox { min: p(i32::MAX - 1, i32::MIN), max: p(i32::MAX, i32::MIN + 1) }
    );
}

#[test]
fn lines_of_the_grid() {
    assert_eq!(line_at(-1000, 500, 0), -1000);
    assert_eq!(line_at(-1000, 500, 3), 500);
    assert_eq!(line_at(-1000, 500, -2), -2000);
    assert_eq!(line_at(i32::MAX, i32::MAX, i64::MAX), i32::MAX as i128 * (i64::MAX as i128 + 1));
}

#[test]
fn bbox_contains_its_edges() {
    let b = BBox { min: p(0, 10), max: p(5, 20) };
    assert!(b.contains_point(p(0, 10)));
    assert!(b.contains_point(p(5, 20)));
    assert!(b.contains_point(p(3, 15)));
    assert!(!b.contains_point(p(-1, 15)));
    assert!(!b.contains_point(p(6, 15)));
    assert!(!b.contains_point(p(3, 9)));
    assert!(!b.contains_point(p(3, 21)));
}

#[test]
fn doubled_area_has_the_sign_of_the_turn() {
    let square = [p(0, 0), p(100, 0), p(100, 100), p(0, 100)];
    assert_eq!(doubled_area_of(&square), 20000);
    let back = [p(0, 100), p(100, 100), p(100, 0), p(0, 0)];
    assert_eq!(doubled_area_of(&back), -20000);
    let closed = [p(0, 0), p(100, 0), p(100, 100), p(0, 100), p(0, 0)];
    assert_eq!(doubled_area_of(&closed), 20000);
    assert_eq!(doubled_area_of(&[p(0, 0), p(10, 10), p(20, 20)]), 0);
    assert_eq!(doubled_area_of(&[p(3, 4)]), 0);
    assert_eq!(doubled_area_of(&[]), 0);
}

#[test]
fn doubled_area_at_the_limits_of_the_coordinates() {
    let ring = [p(i32::MIN, i32::MIN), p(i32::MAX, i32::MIN), p(i32::MAX, i32::MAX), p(i32::MIN, i32::MAX)];
    let side = i32::MAX as i128 - i32::MIN as i128;
    assert_eq!(doubled_area_of(&ring), 2 * side * side);
}

#[test]
fn bounds_of_a_ring() {
    let ring = [p(3, -7), p(-5, 2), p(9, 0), p(1, 12)];
    assert_eq!(bounds_of(&ring), BBox { min: p(-5, -7), max: p(9, 12) });
    assert_eq!(bounds_of(&[p(4, 5)]), BBox { min: p(4, 5), max: p(4, 5) });
}

#[test]
fn cut_edge_lies_on_the_line() {
    assert_eq!(cut_edge(p(0, 0), p(10, 20), Axis::X, 5), p(5, 10));
    assert_eq!(cut_edge(p(0, 0), p(10, 20), Axis::Y, 5), p(2, 5));
    assert_eq!(cut_edge(p(10, 20), p(0, 0), Axis::Y, 5), p(2, 5));
    assert_eq!(cut_edge(p(0, 0), p(10, 20), Axis::X, 0), p(0, 0));
    assert_eq!(cut_edge(p(0, 0), p(10, 20), Axis::X, 10), p(10, 20));
}

#[test]
fn clip_ring_keeps_one_side() {
    let ring = [p(0, 0), p(10, 0), p(10, 10), p(0, 10)];
    assert_eq!(clip_ring(&ring, Axis::X, 4, true), vec![p(0, 0), p(4, 0), p(4, 10), p(0, 10)]);
    assert_eq!(clip_ring(&ring, Axis::X, 4, false), vec![p(4, 0), p(10, 0), p(10, 10), p(4, 10)]);
    assert_eq!(clip_ring(&ring, Axis::Y, 4, true), vec![p(0, 4), p(0, 0), p(10, 0), p(10, 4)]);
    assert_eq!(clip_ring(&ring, Axis::Y, 4, false), vec![p(0, 4), p(10, 4), p(10, 10), p(0, 10)]);
}

#[test]
fn clip_ring_leaves_a_ring_on_the_kept_side_as_it_is() {
    let ring = [p(0, 0), p(10, 0), p(10, 10), p(0, 10)];
    assert_eq!(clip_ring(&ring, Axis::X, 10, true), ring.to_vec());
    assert_eq!(clip_ring(&ring, Axis::X, 0, false), ring.to_vec());
    assert_eq!(clip_ring(&ring, Axis::Y, 11, true), ring.to_vec());
    assert_eq!(clip_ring(&ring, Axis::Y, -1, false), ring.to_vec());
}

#[test]
fn clip_ring_drops_a_ring_beyond_the_line() {
    let ring = [p(0, 0), p(10, 0), p(10, 10), p(0, 10)];
    assert_eq!(clip_ring(&ring, Axis::X, -1, true), vec![]);
    assert_eq!(clip_ring(&ring, Axis::X, 11, false), vec![]);
    assert_eq!(clip_ring(&[], Axis::X, 0, true), vec![]);
}

#[test]
fn combine_rings_without_holes_changes_nothing() {
    let outer = vec![p(0, 0), p(100, 0), p(100, 100), p(0, 100)];
    let mut ring = outer.clone();
    combine_rings(&mut ring, &[]);
    assert_eq!(ring, outer);
    combine_rings(&mut ring, &[vec![], vec![]]);
    assert_eq!(ring, outer);
}

#[test]
fn combine_rings_walks_a_hole_against_the_outer_ring() {
    let outer = vec![p(0, 0), p(100, 0), p(100, 100), p(0, 100)];
    let mut ring = outer.clone();
    combine_rings(&mut ring, &[vec![p(20, 20), p(40, 20), p(40, 40), p(20, 40)]]);
    assert_eq!(
        ring,
        vec![
            p(0, 0),
            p(100, 0),
            p(100, 100),
            p(0, 100),
            p(20, 40),
            p(40, 40),
            p(40, 20),
            p(20, 20),
            p(20, 40),
            p(0, 100),
        ]
    );
    assert_eq!(doubled_area_of(&ring), 20000 - 800);
}

#[test]
fn combine_rings_keeps_a_hole_that_turns_the_other_way() {
    let mut ring = vec![p(0, 0), p(100, 0), p(100, 100), p(0, 100)];
    combine_rings(&mut ring, &[vec![p(20, 20), p(20, 40), p(40, 40), p(40, 20)]]);
    assert_eq!(
        ring,
        vec![
            p(0, 0),
            p(100, 0),
            p(100, 100),
            p(0, 100),
            p(20, 20),
            p(20, 40),
            p(40, 40),
            p(40, 20),
            p(20, 20),
            p(0, 100),
        ]
    );
    assert_eq!(doubled_area_of(&ring), 20000 - 800);
}

#[test]
fn combine_rings_does_not_close_a_closed_hole_again() {
    let mut ring = vec![p(0, 0), p(100, 0), p(100, 100), p(0, 100), p(0, 0)];
    combine_rings(&mut ring, &[vec![p(20, 20), p(20, 40), p(40, 40), p(40, 20), p(20, 20)]]);
    assert_eq!(
        ring,
        vec![
            p(0, 0),
            p(100, 0),
            p(100, 100),
            p(0, 100),
            p(0, 0),
            p(20, 20),
            p(20, 40),
            p(40, 40),
            p(40, 20),
            p(20, 20),
            p(0, 0),
        ]
    );
}

#[test]
fn combine_rings_joins_every_hole_and_passes_over_empty_ones() {
    let mut ring = vec![p(0, 0), p(100, 0), p(100, 100), p(0, 100)];
    combine_rings(
        &mut ring,
        &[vec![p(10, 10), p(10, 20), p(20, 20)], vec![], vec![p(50, 50)], vec![p(60, 60), p(60, 70), p(70, 70)]],
    );
    assert_eq!(
        ring,
        vec![
            p(0, 0),
            p(100, 0),
            p(100, 100),
            p(0, 100),
            p(10, 10),
            p(10, 20),
            p(20, 20),
            p(10, 10),
            p(0, 100),
            p(50, 50),
            p(0, 100),
            p(60, 60),
            p(60, 70),
            p(70, 70),
            p(60, 60),
            p(0, 100),
        ]
    );
}

#[test]
fn combine_rings_leaves_an_empty_outer_ring_empty() {
    let mut ring: Vec<Point> = Vec::new();
    combine_rings(&mut ring, &[vec![p(10, 10), p(10, 20), p(20, 20)]]);
    assert_eq!(ring, vec![]);
}

#[test]
fn combine_rings_tolerates_a_hole_outside_the_outer_ring() {
    let mut ring = vec![p(0, 0), p(10, 0), p(10, 10), p(0, 10)];
    combine_rings(&mut ring, &[vec![p(500, 500), p(500, 600), p(600, 600)]]);
    assert_eq!(ring.len(), 4 + 3 + 2);
    assert_eq!(ring[..4], [p(0, 0), p(10, 0), p(10, 10), p(0, 10)]);
    assert_eq!(ring[8], p(0, 10));
}

#[test]
fn tile_box_of_a_tile_outside_the_grid() {
    let g = grid();
    assert_eq!(g.tile_box(Index { x: -1, y: -2 }), BBox { min: p(-1500, -300), max: p(-1000, -50) });
    assert_eq!(g.tile_box(Index { x: 4, y: 3 }), BBox { min: p(1000, 950), max: p(1500, 1200) });
    assert_eq!(g.tile_box(Index { x: 1000000, y: 0 }), BBox { min: p(499999000, 200), max: p(499999500, 450) });
    let far = GridGeometry { origin: p(0, 0), step: p(1, 1), size: Index { x: 1, y: 1 } };
    assert_eq!(
        far.tile_box(Index { x: i32::MIN as i64, y: i32::MAX as i64 - 1 }),
        BBox { min: p(i32::MIN, i32::MAX - 1), max: p(i32::MIN + 1, i32::MAX) }
    );
}

#[test]
fn bounds_of_the_whole_grid() {
    assert_eq!(grid().bounds(), BBox { min: p(-1000, 200), max: p(1000, 950) });
    let empty = GridGeometry { origin: p(5, 6), step: p(7, 8), size: Index { x: 0, y: 0 } };
    assert_eq!(empty.bounds(), BBox { min: p(5, 6), max: p(5, 6) });
}
