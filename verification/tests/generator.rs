use rustymon_world::features::{FeatureParser, Pairs, Tags};
use rustymon_world::formats::{Constructable, Tile};
use rustymon_world::generator::layout::{centered, tile_step_of};
use rustymon_world::generator::tiles::TileArray;
use rustymon_world::generator::{project_nodes, WorldGenerator};
use rustymon_world::geometry::bbox::BBox;
use rustymon_world::geometry::grid::{clip_point, GridGeometry};
use rustymon_world::geometry::polygon::doubled_area_of;
use rustymon_world::geometry::path::clip_path;
use rustymon_world::geometry::strips::clip_polygon;
use rustymon_world::geometry::{Index, Point};
use rustymon_world::osm::{Area, Node, NodeRef, Ring, Way};
use rustymon_world::projection::{Location, LocationBox, Simple, MAP_WIDTH};

/// Lets a feature appear as the number of the tags whose key is `show`.
struct Counting;

fn shown<T: Tags>(tags: &T) -> Option<u8> {
    let mut count = 0;
    for i in 0..tags.count() {
        if tags.key(i) == "show" {
            count += 1;
        }
    }
    if count == 0 {
        None
    } else {
        Some(count)
    }
}

impl FeatureParser for Counting {
    type Feature = u8;

    fn area_answer(&self, _pairs: Pairs, _answer: Option<u8>) -> bool {
        true
    }

    fn node_answer(&self, _pairs: Pairs, _answer: Option<u8>) -> bool {
        true
    }

    fn way_answer(&self, _pairs: Pairs, _answer: Option<u8>) -> bool {
        true
    }

    fn area<T: Tags>(&self, area: &T) -> Option<u8> {
        shown(area)
    }

    fn node<T: Tags>(&self, node: &T) -> Option<u8> {
        shown(node)
    }

    fn way<T: Tags>(&self, way: &T) -> Option<u8> {
        shown(way)
    }
}

const HALF: i32 = MAP_WIDTH / 2;
const UNIT: i32 = MAP_WIDTH / 10;

fn p(x: i32, y: i32) -> Point {
    Point { x, y }
}

fn at(id: i64, x: i32, y: i32) -> NodeRef {
    NodeRef { id, location: Some(Location { lon: x, lat: y }) }
}

fn tags(pairs: &[(&str, &str)]) -> Vec<(String, String)> {
    pairs.iter().map(|(k, v)| (k.to_string(), v.to_string())).collect()
}

fn show() -> Vec<(String, String)> {
    tags(&[("name", "x"), ("show", "yes")])
}

/// A world of two by two tiles over the whole map.
fn world() -> WorldGenerator<Simple, Tile<u8>, Counting> {
    WorldGenerator::new(Location { lon: HALF, lat: HALF }, (2, 2), 1, Counting, Simple)
}

fn is_empty(tile: &Tile<u8>) -> bool {
    tile.areas.is_empty() && tile.nodes.is_empty() && tile.lines.is_empty()
}

#[test]
fn tags_are_read_by_place() {
    let list = tags(&[("a", "1"), ("b", "2"), ("a", "3")]);
    assert_eq!(list.count(), 3);
    assert_eq!(list.key(0), "a");
    assert_eq!(list.value(0), "1");
    assert_eq!(list.key(1), "b");
    assert_eq!(list.value(1), "2");
    assert_eq!(list.key(2), "a");
    assert_eq!(list.value(2), "3");
}

#[test]
fn tile_step_halves_with_each_level() {
    assert_eq!(tile_step_of(0), MAP_WIDTH);
    assert_eq!(tile_step_of(1), MAP_WIDTH / 2);
    assert_eq!(tile_step_of(14), 65536);
    assert_eq!(tile_step_of(30), 1);
    assert_eq!(tile_step_of(31), 0);
    assert_eq!(tile_step_of(255), 0);
}

#[test]
fn centered_grid_over_the_whole_map() {
    assert_eq!(
        centered(p(HALF, HALF), 2, 2, 1),
        Some(GridGeometry { origin: p(0, 0), step: p(HALF, HALF), size: Index { x: 2, y: 2 } })
    );
}

#[test]
fn centered_grid_begins_on_the_lattice_of_tiles() {
    assert_eq!(
        centered(p(700000000, 300000000), 2, 2, 2),
        Some(GridGeometry {
            origin: p(268435456, 0),
            step: p(268435456, 268435456),
            size: Index { x: 2, y: 2 },
        })
    );
    let grid = centered(p(700000000, 300000000), 2, 2, 2).unwrap();
    assert_eq!(grid.lookup_point(p(700000000, 300000000)), Index { x: 1, y: 1 });
}

#[test]
fn centered_grid_of_odd_size_begins_half_a_tile_off_the_lattice() {
    assert_eq!(
        centered(p(700000000, 300000000), 2, 1, 2),
        Some(GridGeometry {
            origin: p(268435456, 134217728),
            step: p(268435456, 268435456),
            size: Index { x: 2, y: 1 },
        })
    );
}

#[test]
fn centered_grid_round_the_middle_of_the_map_at_zoom_nought() {
    assert_eq!(
        centered(p(HALF, HALF), 2, 2, 0),
        Some(GridGeometry {
            origin: p(-MAP_WIDTH, -MAP_WIDTH),
            step: p(MAP_WIDTH, MAP_WIDTH),
            size: Index { x: 2, y: 2 },
        })
    );
    let grid = centered(p(HALF, HALF), 2, 2, 0).unwrap();
    assert_eq!(grid.bounds(), BBox { min: p(-MAP_WIDTH, -MAP_WIDTH), max: p(MAP_WIDTH, MAP_WIDTH) });
    assert_eq!(grid.lookup_point(p(HALF, HALF)), Index { x: 1, y: 1 });
}

#[test]
fn centered_grid_round_a_negative_centre() {
    assert_eq!(
        centered(p(-700000000, -300000000), 1, 1, 2),
        Some(GridGeometry {
            origin: p(-700000000 + 163129088 - 134217728, -300000000 + 31564544 - 134217728),
            step: p(268435456, 268435456),
            size: Index { x: 1, y: 1 },
        })
    );
}

#[test]
fn centered_grid_with_an_odd_number_of_smallest_tiles() {
    assert_eq!(
        centered(p(10, 20), 3, 5, 30),
        Some(GridGeometry { origin: p(9, 18), step: p(1, 1), size: Index { x: 3, y: 5 } })
    );
}

#[test]
fn centered_grid_that_does_not_fit_is_refused() {
    assert_eq!(centered(p(HALF, HALF), 2, 2, 31), None);
    assert_eq!(centered(p(HALF, HALF), 5, 1, 0), None);
    assert_eq!(centered(p(HALF, HALF), 1, 5, 0), None);
    assert_eq!(centered(p(i32::MAX, 0), 2, 1, 1), None);
    assert_eq!(centered(p(0, i32::MIN), 1, 2, 1), None);
    assert_eq!(centered(p(0, 0), usize::MAX, usize::MAX, 30), None);
    assert_eq!(centered(p(0, 0), usize::MAX, 0, 30), None);
}

#[test]
fn centered_grid_without_tiles() {
    assert_eq!(
        centered(p(5, 7), 0, 0, 1),
        Some(GridGeometry { origin: p(0, 0), step: p(HALF, HALF), size: Index { x: 0, y: 0 } })
    );
}

#[test]
fn new_world_has_an_empty_tile_for_each_cell() {
    let world = world();
    assert_eq!(
        world.world.grid,
        GridGeometry { origin: p(0, 0), step: p(HALF, HALF), size: Index { x: 2, y: 2 } }
    );
    assert_eq!(
        world.int_box,
        LocationBox { min: Location { lon: 0, lat: 0 }, max: Location { lon: MAP_WIDTH, lat: MAP_WIDTH } }
    );
    assert_eq!(world.world.area_type, None);
    assert_eq!(world.world.node_type, None);
    assert_eq!(world.world.way_type, None);
    let tiles = world.into_tiles();
    assert_eq!(tiles.len(), 4);
    assert_eq!(tiles[0].bbox, BBox { min: p(0, 0), max: p(HALF, HALF) });
    assert_eq!(tiles[1].bbox, BBox { min: p(HALF, 0), max: p(MAP_WIDTH, HALF) });
    assert_eq!(tiles[2].bbox, BBox { min: p(0, HALF), max: p(HALF, MAP_WIDTH) });
    assert_eq!(tiles[3].bbox, BBox { min: p(HALF, HALF), max: p(MAP_WIDTH, MAP_WIDTH) });
    assert!(tiles.iter().all(is_empty));
}

#[test]
fn prefilter_box_holds_the_locations_of_the_grid() {
    let centre = Location { lon: 10, lat: -20 };
    let world: WorldGenerator<Simple, Tile<u8>, Counting> = WorldGenerator::new(centre, (3, 5), 30, Counting, Simple);
    assert_eq!(
        world.world.grid,
        GridGeometry { origin: p(9, -22), step: p(1, 1), size: Index { x: 3, y: 5 } }
    );
    assert_eq!(
        world.int_box,
        LocationBox { min: Location { lon: 9, lat: -22 }, max: Location { lon: 12, lat: -17 } }
    );
    assert!(world.int_box.holds_location(centre));
    for lon in 9..12 {
        for lat in -22..-17 {
            let location = Location { lon, lat };
            assert!(world.world.grid.has_tile(world.world.grid.lookup_point(p(lon, lat))));
            assert!(world.int_box.holds_location(location));
        }
    }
    assert!(!world.int_box.holds_location(Location { lon: 8, lat: -20 }));
    assert!(!world.int_box.holds_location(Location { lon: 13, lat: -20 }));
    assert!(!world.int_box.holds_location(Location { lon: 10, lat: -23 }));
    assert!(!world.int_box.holds_location(Location { lon: 10, lat: -16 }));
}

#[test]
fn node_is_filed_into_its_tile() {
    let mut world = world();
    world.node(&Node { id: 1, location: Some(Location { lon: 7 * UNIT, lat: UNIT }), tags: show() });
    world.node(&Node { id: 2, location: Some(Location { lon: HALF, lat: HALF }), tags: show() });
    let tiles = world.into_tiles();
    assert_eq!(tiles[1].nodes, vec![(p(7 * UNIT, UNIT), 1)]);
    assert_eq!(tiles[3].nodes, vec![(p(HALF, HALF), 1)]);
    assert!(is_empty(&tiles[0]) && is_empty(&tiles[2]));
}

#[test]
fn node_that_does_not_appear_changes_nothing() {
    let mut world = world();
    world.node(&Node { id: 1, location: Some(Location { lon: UNIT, lat: UNIT }), tags: tags(&[("a", "b")]) });
    world.node(&Node { id: 2, location: None, tags: show() });
    world.node(&Node { id: 3, location: Some(Location { lon: -UNIT, lat: UNIT }), tags: show() });
    world.add_node(None, &Node { id: 4, location: Some(Location { lon: UNIT, lat: UNIT }), tags: show() });
    assert!(world.into_tiles().iter().all(is_empty));
}

#[test]
fn way_inside_one_tile_is_one_line() {
    let mut world = world();
    world.way(&Way {
        tags: tags(&[("show", "a"), ("show", "b")]),
        nodes: vec![at(1, UNIT, UNIT), at(2, 2 * UNIT, 3 * UNIT), at(3, 4 * UNIT, 4 * UNIT)],
    });
    assert_eq!(world.world.way_type, None);
    assert!(world.world.tiles.iter().all(|tile| tile.wip_way.is_empty()));
    let tiles = world.into_tiles();
    assert_eq!(tiles[0].lines, vec![(vec![p(UNIT, UNIT), p(2 * UNIT, 3 * UNIT), p(4 * UNIT, 4 * UNIT)], 2)]);
    assert!(tiles[0].areas.is_empty() && tiles[0].nodes.is_empty());
    assert!(is_empty(&tiles[1]) && is_empty(&tiles[2]) && is_empty(&tiles[3]));
}

#[test]
fn way_over_two_tiles_is_cut_at_the_line_between_them() {
    let mut world = world();
    world.way(&Way { tags: show(), nodes: vec![at(1, 4 * UNIT, UNIT), at(2, 6 * UNIT, 2 * UNIT)] });
    let cut = p(HALF, interpolate(4 * UNIT, UNIT, 6 * UNIT, 2 * UNIT, HALF));
    let tiles = world.into_tiles();
    assert_eq!(tiles[0].lines, vec![(vec![p(4 * UNIT, UNIT), cut], 1)]);
    assert_eq!(tiles[1].lines, vec![(vec![cut, p(6 * UNIT, 2 * UNIT)], 1)]);
    assert!(is_empty(&tiles[2]) && is_empty(&tiles[3]));
}

fn interpolate(a0: i32, b0: i32, a1: i32, b1: i32, a: i32) -> i32 {
    let v = (b1 as i64 - b0 as i64) * (a as i64 - a0 as i64).abs();
    (b0 as i64 + v.div_euclid((a1 as i64 - a0 as i64).abs())) as i32
}

#[test]
fn closed_way_changes_nothing() {
    let mut world = world();
    world.way(&Way {
        tags: show(),
        nodes: vec![at(1, UNIT, UNIT), at(2, 6 * UNIT, UNIT), at(3, 6 * UNIT, 6 * UNIT), at(1, UNIT, UNIT)],
    });
    world.way(&Way { tags: show(), nodes: vec![at(1, UNIT, UNIT), at(1, 6 * UNIT, 6 * UNIT)] });
    world.way(&Way { tags: show(), nodes: vec![at(1, UNIT, UNIT)] });
    world.way(&Way { tags: show(), nodes: vec![] });
    assert!(world.into_tiles().iter().all(is_empty));
}

#[test]
fn way_that_returns_to_its_place_under_another_id_is_kept() {
    let mut world = world();
    world.way(&Way { tags: show(), nodes: vec![at(1, UNIT, UNIT), at(2, 2 * UNIT, UNIT), at(3, UNIT, UNIT)] });
    let tiles = world.into_tiles();
    assert_eq!(tiles[0].lines, vec![(vec![p(UNIT, UNIT), p(2 * UNIT, UNIT), p(UNIT, UNIT)], 1)]);
}

#[test]
fn way_that_does_not_appear_changes_nothing() {
    let mut world = world();
    world.way(&Way { tags: tags(&[]), nodes: vec![at(1, UNIT, UNIT), at(2, 6 * UNIT, UNIT)] });
    world.add_way(None, &[at(1, UNIT, UNIT), at(2, 6 * UNIT, UNIT)]);
    assert!(world.into_tiles().iter().all(is_empty));
}

#[test]
fn way_drops_the_points_without_location() {
    let mut world = world();
    world.way(&Way {
        tags: show(),
        nodes: vec![
            NodeRef { id: 1, location: None },
            at(2, UNIT, UNIT),
            NodeRef { id: 3, location: None },
            at(4, 2 * UNIT, UNIT),
        ],
    });
    world.way(&Way { tags: show(), nodes: vec![at(5, UNIT, UNIT), NodeRef { id: 6, location: None }] });
    let tiles = world.into_tiles();
    assert_eq!(tiles[0].lines, vec![(vec![p(UNIT, UNIT), p(2 * UNIT, UNIT)], 1)]);
}

#[test]
fn way_outside_the_grid_changes_nothing() {
    let mut world = world();
    world.way(&Way { tags: show(), nodes: vec![at(1, -UNIT, UNIT), at(2, -2 * UNIT, 20 * UNIT)] });
    world.area(&Area {
        tags: show(),
        rings: vec![Ring {
            outer: vec![at(1, -UNIT, UNIT), at(2, -2 * UNIT, UNIT), at(3, -2 * UNIT, 2 * UNIT), at(1, -UNIT, UNIT)],
            inners: vec![],
        }],
    });
    assert!(world.world.tiles.iter().all(|tile| tile.wip_way.is_empty()));
    assert!(world.into_tiles().iter().all(is_empty));
}

#[test]
fn square_area_over_four_tiles() {
    let mut world = world();
    world.area(&Area {
        tags: show(),
        rings: vec![Ring {
            outer: vec![at(1, UNIT, UNIT), at(2, 9 * UNIT, UNIT), at(3, 9 * UNIT, 9 * UNIT), at(4, UNIT, 9 * UNIT)],
            inners: vec![],
        }],
    });
    assert_eq!(world.world.area_type, None);
    let tiles = world.into_tiles();
    assert_eq!(tiles[0].areas, vec![(vec![p(UNIT, HALF), p(UNIT, UNIT), p(HALF, UNIT), p(HALF, HALF)], 1)]);
    assert_eq!(tiles[2].areas, vec![(vec![p(UNIT, HALF), p(HALF, HALF), p(HALF, 9 * UNIT), p(UNIT, 9 * UNIT)], 1)]);
    assert_eq!(tiles[1].areas, vec![(vec![p(HALF, HALF), p(HALF, UNIT), p(9 * UNIT, UNIT), p(9 * UNIT, HALF)], 1)]);
    assert_eq!(
        tiles[3].areas,
        vec![(vec![p(HALF, HALF), p(9 * UNIT, HALF), p(9 * UNIT, 9 * UNIT), p(HALF, 9 * UNIT)], 1)]
    );
    assert!(tiles.iter().all(|tile| tile.lines.is_empty() && tile.nodes.is_empty()));
}

#[test]
fn area_with_a_hole_is_joined_before_it_is_cut() {
    let mut world = world();
    let outer = vec![at(1, UNIT, UNIT), at(2, 4 * UNIT, UNIT), at(3, 4 * UNIT, 4 * UNIT), at(4, UNIT, 4 * UNIT)];
    let hole = vec![at(5, 2 * UNIT, 2 * UNIT), at(6, 3 * UNIT, 2 * UNIT), at(7, 3 * UNIT, 3 * UNIT)];
    world.area(&Area {
        tags: show(),
        rings: vec![Ring { outer, inners: vec![vec![NodeRef { id: 9, location: None }], hole, vec![]] }],
    });
    let tiles = world.into_tiles();
    assert_eq!(
        tiles[0].areas,
        vec![(
            vec![
                p(UNIT, UNIT),
                p(4 * UNIT, UNIT),
                p(4 * UNIT, 4 * UNIT),
                p(UNIT, 4 * UNIT),
                p(3 * UNIT, 3 * UNIT),
                p(3 * UNIT, 2 * UNIT),
                p(2 * UNIT, 2 * UNIT),
                p(3 * UNIT, 3 * UNIT),
                p(UNIT, 4 * UNIT),
            ],
            1
        )]
    );
}

#[test]
fn area_uses_the_rings_in_store_again() {
    let mut world = world();
    let outer = vec![at(1, UNIT, UNIT), at(2, 4 * UNIT, UNIT), at(3, 4 * UNIT, 4 * UNIT), at(4, UNIT, 4 * UNIT)];
    let hole = vec![at(5, 2 * UNIT, 2 * UNIT), at(6, 3 * UNIT, 2 * UNIT), at(7, 3 * UNIT, 3 * UNIT)];
    let area = Area {
        tags: show(),
        rings: vec![
            Ring { outer: outer.clone(), inners: vec![hole.clone(), hole.clone()] },
            Ring { outer: outer.clone(), inners: vec![] },
            Ring { outer: outer.clone(), inners: vec![hole.clone()] },
        ],
    };
    world.area(&area);
    assert_eq!(world.rings.len(), 2);
    world.area(&area);
    assert_eq!(world.rings.len(), 2);
    let tiles = world.into_tiles();
    assert_eq!(tiles[0].areas.len(), 6);
    assert_eq!(tiles[0].areas[0].0.len(), 4 + 5 + 5);
    assert_eq!(tiles[0].areas[1].0, vec![p(UNIT, UNIT), p(4 * UNIT, UNIT), p(4 * UNIT, 4 * UNIT), p(UNIT, 4 * UNIT)]);
    assert_eq!(tiles[0].areas[2].0.len(), 4 + 5);
    assert_eq!(tiles[0].areas[3], tiles[0].areas[0]);
    assert_eq!(tiles[0].areas[5], tiles[0].areas[2]);
}

#[test]
fn area_that_does_not_appear_changes_nothing() {
    let mut world = world();
    let outer = vec![at(1, UNIT, UNIT), at(2, 4 * UNIT, UNIT), at(3, 4 * UNIT, 4 * UNIT)];
    world.area(&Area { tags: tags(&[("hide", "x")]), rings: vec![Ring { outer: outer.clone(), inners: vec![] }] });
    world.add_area(None, &[Ring { outer, inners: vec![] }]);
    world.area(&Area { tags: show(), rings: vec![] });
    world.area(&Area { tags: show(), rings: vec![Ring { outer: vec![], inners: vec![] }] });
    assert!(world.into_tiles().iter().all(is_empty));
}

#[test]
fn project_nodes_writes_over_what_was_there() {
    let mut points = vec![p(1, 1), p(2, 2), p(3, 3)];
    project_nodes(&Simple, &[at(1, 5, 6), NodeRef { id: 2, location: None }, at(3, 7, 8)], &mut points);
    assert_eq!(points, vec![p(5, 6), p(7, 8)]);
    project_nodes(&Simple, &[], &mut points);
    assert_eq!(points, vec![]);
}

#[test]
fn tile_array_files_what_the_clipping_hands_to_it() {
    let grid = GridGeometry { origin: p(0, 0), step: p(500, 500), size: Index { x: 2, y: 2 } };
    let mut array: TileArray<Tile<char>, char> = TileArray::new(grid);
    assert_eq!(array.tile_offset(Index { x: 1, y: 1 }), Some(3));
    assert_eq!(array.tile_offset(Index { x: 0, y: 1 }), Some(2));
    assert_eq!(array.tile_offset(Index { x: 2, y: 1 }), None);
    assert_eq!(array.tile_offset(Index { x: 1, y: -1 }), None);
    array.way_type = Some('w');
    clip_path(&mut array, &[p(400, 100), p(600, 200), p(700, 200)]);
    array.node_type = Some('n');
    clip_point(&mut array, p(10, 990));
    array.area_type = Some('a');
    clip_polygon(&mut array, &[p(600, 600), p(700, 600), p(700, 700)]);
    let tiles = array.into_tiles();
    assert_eq!(tiles[0].lines, vec![(vec![p(400, 100), p(500, 150)], 'w')]);
    assert_eq!(tiles[1].lines, vec![(vec![p(500, 150), p(600, 200), p(700, 200)], 'w')]);
    assert_eq!(tiles[2].nodes, vec![(p(10, 990), 'n')]);
    assert_eq!(tiles[3].areas, vec![(vec![p(600, 600), p(700, 600), p(700, 700)], 'a')]);
}

#[test]
fn tile_array_without_a_feature_at_hand_files_nothing() {
    let grid = GridGeometry { origin: p(0, 0), step: p(500, 500), size: Index { x: 2, y: 2 } };
    let mut array: TileArray<Tile<char>, char> = TileArray::new(grid);
    clip_path(&mut array, &[p(400, 100), p(600, 200)]);
    clip_point(&mut array, p(10, 990));
    clip_polygon(&mut array, &[p(600, 600), p(700, 600), p(700, 700)]);
    assert!(array.tiles.iter().all(|tile| tile.wip_way.is_empty()));
    let tiles = array.into_tiles();
    assert!(tiles.iter().all(|t| t.areas.is_empty() && t.nodes.is_empty() && t.lines.is_empty()));
}

#[test]
fn tile_keeps_what_it_is_given() {
    let mut tile: Tile<u8> = Tile::new(BBox { min: p(0, 0), max: p(9, 9) });
    tile.add_node(p(1, 2), 7);
    tile.add_line(&[p(1, 2), p(3, 4)], 8);
    tile.add_area(&[p(1, 2), p(3, 4), p(5, 0)], 9);
    tile.add_node(p(5, 6), 1);
    assert_eq!(tile.bbox, BBox { min: p(0, 0), max: p(9, 9) });
    assert_eq!(tile.nodes, vec![(p(1, 2), 7), (p(5, 6), 1)]);
    assert_eq!(tile.lines, vec![(vec![p(1, 2), p(3, 4)], 8)]);
    assert_eq!(tile.areas, vec![(vec![p(1, 2), p(3, 4), p(5, 0)], 9)]);
}

#[test]
fn no_piece_of_an_area_with_a_hole_exceeds_the_outer_ring() {
    let mut world = world();
    let outer = vec![at(1, UNIT, UNIT), at(2, 9 * UNIT, UNIT), at(3, 9 * UNIT, 9 * UNIT), at(4, UNIT, 9 * UNIT)];
    let hole = vec![at(5, 3 * UNIT, 3 * UNIT), at(6, 7 * UNIT, 3 * UNIT), at(7, 7 * UNIT, 7 * UNIT), at(8, 3 * UNIT, 7 * UNIT)];
    world.area(&Area { tags: show(), rings: vec![Ring { outer, inners: vec![hole] }] });
    let whole = 2 * (8 * UNIT as i128) * (8 * UNIT as i128);
    let inner = 2 * (4 * UNIT as i128) * (4 * UNIT as i128);
    let tiles = world.into_tiles();
    let mut sum = 0;
    for tile in &tiles {
        assert_eq!(tile.areas.len(), 1);
        let area = doubled_area_of(&tile.areas[0].0);
        assert!(0 < area && area <= whole);
        sum += area;
    }
    assert_eq!(sum, whole - inner);
}

#[test]
fn shared_parser_decides_as_the_parser_itself() {
    let shared = std::sync::Arc::new(Counting);
    let list = tags(&[("show", "a"), ("x", "y"), ("show", "b")]);
    assert_eq!(shared.area(&list), Some(2));
    assert_eq!(shared.node(&list), Some(2));
    assert_eq!(shared.way(&list), Some(2));
    assert_eq!(shared.way(&tags(&[("x", "y")])), None);
    let mut world: WorldGenerator<Simple, Tile<u8>, std::sync::Arc<Counting>> =
        WorldGenerator::new(Location { lon: HALF, lat: HALF }, (2, 2), 1, shared, Simple);
    world.node(&Node { id: 1, location: Some(Location { lon: UNIT, lat: UNIT }), tags: list });
    assert_eq!(world.into_tiles()[0].nodes, vec![(p(UNIT, UNIT), 2)]);
}

#[test]
fn way_from_a_quarter_to_three_quarters_is_cut_at_the_half() {
    let mut world = world();
    let quarter = MAP_WIDTH / 4;
    let eighth = MAP_WIDTH / 8;
    world.way(&Way {
        tags: show(),
        nodes: vec![at(1, quarter, eighth), at(2, 3 * quarter, 3 * eighth)],
    });
    let tiles = world.into_tiles();
    assert_eq!(tiles[0].lines, vec![(vec![p(quarter, eighth), p(HALF, quarter)], 1)]);
    assert_eq!(tiles[1].lines, vec![(vec![p(HALF, quarter), p(3 * quarter, 3 * eighth)], 1)]);
    assert!(is_empty(&tiles[2]) && is_empty(&tiles[3]));
    assert!(tiles[0].areas.is_empty() && tiles[0].nodes.is_empty());
    assert!(tiles[1].areas.is_empty() && tiles[1].nodes.is_empty());
}
