use std::f64::consts::PI;

use rustymon_world::geometry::bbox::BBox;
use rustymon_world::geometry::Point;
use rustymon_world::osm::{Node, NodeRef};
use rustymon_world::projection::{
    GetLocation, Location, LocationBox, Projection, Simple, WebMercator, HALF_TURN, MAP_WIDTH, PRECISION,
};

fn location(lon: f64, lat: f64) -> Location {
    Location { lon: (lon * PRECISION as f64) as i32, lat: (lat * PRECISION as f64) as i32 }
}

fn conformal_y(location: Location) -> i64 {
    let phi = (location.lat as f64 / PRECISION as f64).to_radians();
    let y = (PI - (PI / 4.0 + phi / 2.0).tan().ln()) / (2.0 * PI);
    (y * MAP_WIDTH as f64) as i64
}

fn project_mercator(p: &WebMercator, location: Location) -> Point {
    p.project_with(location, conformal_y(location))
}

#[test]
fn web_mercator() {
    let p = WebMercator;

    // 0 N 0 W should be in the map's center i.e. 0.5, 0.5
    assert_eq!(project_mercator(&p, location(0.0, 0.0)), Point { x: MAP_WIDTH / 2, y: MAP_WIDTH / 2 });

    // 0 N 180 E should be in the middle of the right edge of the map i.e. (1.0, 0.5)
    assert_eq!(project_mercator(&p, location(180.0, 0.0)), Point { x: MAP_WIDTH, y: MAP_WIDTH / 2 });

    // 89 N 0 W would lie outside of the map and should be clipped to (0.5, 0.0)
    assert_eq!(project_mercator(&p, location(0.0, 89.0)), Point { x: MAP_WIDTH / 2, y: 0 });
}

#[test]
fn web_mercator_confines_the_south_to_the_map() {
    let p = WebMercator;
    assert_eq!(project_mercator(&p, location(0.0, -89.0)), Point { x: MAP_WIDTH / 2, y: MAP_WIDTH });
    assert_eq!(p.project_with(location(0.0, 0.0), i64::MAX).y, MAP_WIDTH);
    assert_eq!(p.project_with(location(0.0, 0.0), i64::MIN).y, 0);
    assert_eq!(p.project_with(location(0.0, 0.0), 0).y, 0);
    assert_eq!(p.project_with(location(0.0, 0.0), MAP_WIDTH as i64).y, MAP_WIDTH);
    assert_eq!(p.project_with(location(0.0, 0.0), 12345).y, 12345);
}

#[test]
fn web_mercator_lays_the_longitude_out_evenly() {
    let p = WebMercator;
    assert_eq!(p.project_with(location(-180.0, 0.0), 0).x, 0);
    assert_eq!(p.project_with(location(-90.0, 0.0), 0).x, MAP_WIDTH / 4);
    assert_eq!(p.project_with(location(90.0, 0.0), 0).x, MAP_WIDTH / 4 * 3);
    assert_eq!(p.project_with(Location { lon: 1, lat: 0 }, 0).x, MAP_WIDTH / 2);
    assert_eq!(p.project_with(Location { lon: -1, lat: 0 }, 0).x, MAP_WIDTH / 2 - 1);
    assert_eq!(
        p.project_with(Location { lon: i32::MAX, lat: 0 }, 0).x as i128,
        (i32::MAX as i128 + HALF_TURN as i128) * MAP_WIDTH as i128 / (2 * HALF_TURN as i128)
    );
    assert_eq!(p.project_with(Location { lon: i32::MIN, lat: 0 }, 0).x, -103641036);
}

#[test]
fn simple_carries_the_coordinates_through() {
    let p = Simple;
    assert_eq!(p._project(Location { lon: 17, lat: -4 }), Point { x: 17, y: -4 });
    assert_eq!(p._project(Location { lon: i32::MIN, lat: i32::MAX }), Point { x: i32::MIN, y: i32::MAX });
}

#[test]
fn only_a_missing_location_has_no_place() {
    let p = Simple;
    let known = NodeRef { id: 1, location: Some(Location { lon: 5, lat: 6 }) };
    let unknown = NodeRef { id: 2, location: None };
    assert_eq!(p.project(&known), Some(Point { x: 5, y: 6 }));
    assert_eq!(p.project(&unknown), None);
    let node = Node { id: 3, location: Some(Location { lon: 7, lat: 8 }), tags: Vec::new() };
    assert_eq!(node.get_location(), Some(Location { lon: 7, lat: 8 }));
    assert_eq!(p.project(&node), Some(Point { x: 7, y: 8 }));
    assert_eq!(unknown.get_location(), None);
}

fn easting(lon: i32) -> i32 {
    WebMercator.project_with(Location { lon, lat: 0 }, 0).x
}

#[test]
fn simple_has_the_locations_of_the_places() {
    let places = BBox { min: Point { x: -3, y: 4 }, max: Point { x: 5, y: 60 } };
    assert_eq!(
        Simple.locations_within(places),
        LocationBox { min: Location { lon: -3, lat: 4 }, max: Location { lon: 5, lat: 60 } }
    );
}

#[test]
fn web_mercator_box_holds_the_longitudes_of_the_places_and_no_other() {
    let boxes = [
        (0, MAP_WIDTH),
        (MAP_WIDTH / 2, MAP_WIDTH / 2),
        (MAP_WIDTH / 4, MAP_WIDTH / 4 + 1),
        (123456789, 987654321),
        (-5, 7),
        (1, 1),
    ];
    for (x_min, x_max) in boxes {
        let places = BBox { min: Point { x: x_min, y: 10 }, max: Point { x: x_max, y: 20 } };
        let found = WebMercator.extent_with(places, 77, -77);
        let (west, east) = (found.min.lon, found.max.lon);
        assert!(x_min <= easting(west) && easting(west) <= x_max);
        assert!(x_min <= easting(east) && easting(east) <= x_max);
        assert!(easting(west - 1) < x_min);
        assert!(easting(east + 1) > x_max);
        assert_eq!(found.max.lat, 77);
        assert_eq!(found.min.lat, -77);
    }
    let whole = WebMercator.extent_with(BBox { min: Point { x: 0, y: 0 }, max: Point { x: MAP_WIDTH, y: MAP_WIDTH } }, 1, -1);
    assert_eq!(whole.min, Location { lon: -1800000000, lat: i32::MIN });
    assert_eq!(whole.max, Location { lon: 1800000003, lat: i32::MAX });
}

#[test]
fn web_mercator_box_reaches_as_far_as_a_location_can() {
    let places = BBox { min: Point { x: i32::MIN, y: -1 }, max: Point { x: i32::MAX, y: MAP_WIDTH + 1 } };
    let found = WebMercator.extent_with(places, 5, -5);
    assert_eq!(found.min, Location { lon: i32::MIN, lat: i32::MIN });
    assert_eq!(found.max, Location { lon: i32::MAX, lat: i32::MAX });
    let east = BBox { min: Point { x: easting(i32::MAX), y: 1 }, max: Point { x: easting(i32::MAX), y: 2 } };
    let found = WebMercator.extent_with(east, 5, -5);
    assert_eq!(found.max, Location { lon: i32::MAX, lat: 5 });
    assert_eq!(found.min.lat, -5);
    assert!(easting(found.min.lon) == easting(i32::MAX) && easting(found.min.lon - 1) < easting(i32::MAX));
}

#[test]
fn location_box_holds_its_edges() {
    let b = LocationBox { min: Location { lon: -1, lat: 2 }, max: Location { lon: 3, lat: 4 } };
    assert!(b.holds_location(Location { lon: -1, lat: 2 }));
    assert!(b.holds_location(Location { lon: 3, lat: 4 }));
    assert!(!b.holds_location(Location { lon: 4, lat: 3 }));
    assert!(!b.holds_location(Location { lon: 0, lat: 1 }));
}
