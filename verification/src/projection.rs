//! From geographic locations to positions on the map.
use vstd::prelude::*;
use crate::geometry::Point;
use crate::geometry::bbox::BBox;
use crate::geometry::arith::{floor_div, lemma_floor_at_least, lemma_floor_ordered, lemma_floor_unique};

verus! {

/// The width and height of the whole map, in the units of a [`Point`].
pub const MAP_WIDTH: i32 = 1073741824;

/// The units of a [`Location`] in one degree.
pub const PRECISION: i32 = 10000000;

/// Half a turn round the globe, in the units of a [`Location`].
pub const HALF_TURN: i64 = 1800000000;

/// A geographic position: longitude and latitude in degrees, each times
/// [`PRECISION`].
#[derive(Clone, Copy, Debug, PartialEq, Eq, Structural)]
pub struct Location {
    pub lon: i32,
    pub lat: i32,
}

/// A box of locations, edges included.
#[derive(Clone, Copy, Debug, PartialEq, Eq, Structural)]
pub struct LocationBox {
    pub min: Location,
    pub max: Location,
}

impl LocationBox {
    /// `location` lies in the box or on its edges.
    pub open spec fn holds(self, location: Location) -> bool {
        &&& self.min.lon <= location.lon <= self.max.lon
        &&& self.min.lat <= location.lat <= self.max.lat
    }

    /// Tests whether `location` lies in the box or on its edges.
    pub fn holds_location(&self, location: Location) -> (r: bool)
        ensures
            r == self.holds(location),
    {
        self.min.lon <= location.lon && location.lon <= self.max.lon && self.min.lat <= location.lat
            && location.lat <= self.max.lat
    }
}

/// Something that may lie at a known location.
pub trait GetLocation {
    /// The location, where it is known.
    spec fn location(&self) -> Option<Location>;

    /// The location, where it is known.
    fn get_location(&self) -> (r: Option<Location>)
        ensures
            r == self.location(),
    ;
}

/// A way of laying the globe out on the map. A projection places every
/// location somewhere, and the same location always at the same point.
pub trait Projection: Copy {
    /// Where `location` lies on the map.
    spec fn place(&self, location: Location) -> Point;

    /// Where `location` lies on the map.
    fn _project(&self, location: Location) -> (p: Point)
        ensures
            p == self.place(location),
    ;

    /// The box of locations that [`Projection::locations_within`] gives for
    /// the box `places` of the map.
    spec fn extent(&self, places: BBox) -> LocationBox;

    /// A box of locations for the box `places` of the map: it holds every
    /// location whose place lies in `places` or on its edges, so that what
    /// lies outside of it has no place there.
    fn locations_within(&self, places: BBox) -> (r: LocationBox)
        ensures
            r == self.extent(places),
            forall|location: Location| places.contains(#[trigger] self.place(location)) ==> r.holds(location),
    ;

    /// Where `point` lies on the map. Only something without a known
    /// location has no place.
    fn project<L: GetLocation>(&self, point: &L) -> (p: Option<Point>)
        ensures
            p == match point.location() {
                Some(location) => Some(self.place(location)),
                None => None,
            },
    {
        match point.get_location() {
            Some(location) => Some(self._project(location)),
            None => None,
        }
    }
}

/// Carries the coordinates of a location through as they are.
#[derive(Clone, Copy, Debug)]
pub struct Simple;

impl Projection for Simple {
    open spec fn place(&self, location: Location) -> Point {
        Point { x: location.lon, y: location.lat }
    }

    fn _project(&self, location: Location) -> (p: Point) {
        Point { x: location.lon, y: location.lat }
    }

    /// The locations with the coordinates of the places in the box.
    open spec fn extent(&self, places: BBox) -> LocationBox {
        LocationBox {
            min: Location { lon: places.min.x, lat: places.min.y },
            max: Location { lon: places.max.x, lat: places.max.y },
        }
    }

    fn locations_within(&self, places: BBox) -> (r: LocationBox) {
        LocationBox {
            min: Location { lon: places.min.x, lat: places.min.y },
            max: Location { lon: places.max.x, lat: places.max.y },
        }
    }
}

/// The projection of web maps. The longitude is laid out evenly over the
/// width of the map, with the meridian of Greenwich in the middle. The
/// latitude goes through the conformal formula, which takes floating-point
/// arithmetic; [`WebMercator::project_with`] takes its result and confines it
/// to the map.
#[derive(Clone, Copy, Debug)]
pub struct WebMercator;

impl WebMercator {
    /// The x coordinate of the longitude `lon`: 0 half a turn west of
    /// Greenwich, [`MAP_WIDTH`] half a turn east of it, rounded down.
    pub open spec fn easting(lon: int) -> int {
        ((lon + HALF_TURN) * MAP_WIDTH) / (2 * HALF_TURN)
    }

    /// The y coordinate `y`, moved to the nearest edge of the map where it
    /// lies beyond one.
    pub open spec fn confined(y: int) -> int {
        if y < 0 {
            0
        } else if y > MAP_WIDTH {
            MAP_WIDTH as int
        } else {
            y
        }
    }

    /// The least longitude whose x coordinate is `x` or more.
    pub open spec fn first_longitude(x: int) -> int {
        -((-(x * (2 * HALF_TURN))) / (MAP_WIDTH as int)) - HALF_TURN
    }

    /// The number `v`, or the nearest that a location can hold.
    pub open spec fn held(v: int) -> int {
        if v < i32::MIN {
            i32::MIN as int
        } else if v > i32::MAX {
            i32::MAX as int
        } else {
            v
        }
    }

    /// The x coordinate of a longitude is `x` or more exactly from
    /// [`WebMercator::first_longitude`] of `x` on.
    pub proof fn lemma_first_longitude(x: int, lon: int)
        ensures
            Self::easting(lon) >= x <==> lon >= Self::first_longitude(x),
    {
        let w = MAP_WIDTH as int;
        let k = lon + HALF_TURN;
        let a = x * (2 * HALF_TURN);
        lemma_floor_at_least(k * w, 2 * HALF_TURN, x);
        lemma_floor_at_least(-a, w, -k);
        assert((-k) * w == -(k * w)) by (nonlinear_arith);
    }

    /// Computes [`WebMercator::first_longitude`].
    fn first_longitude_of(x: i64) -> (lon: i64)
        requires
            i32::MIN <= x <= i32::MAX + 1,
        ensures
            lon == Self::first_longitude(x as int),
            -0x4_0000_0000 <= lon <= 0x4_0000_0000,
    {
        proof {
            assert(-0x1_0000_0000 * 3600000000 <= x * (2 * HALF_TURN) <= 0x1_0000_0000 * 3600000000)
                by (nonlinear_arith)
                requires
                    -0x1_0000_0000 <= x <= 0x1_0000_0000,
                    HALF_TURN == 1800000000,
            ;
        }
        let a: i128 = x as i128 * (2 * HALF_TURN as i128);
        let down: i128 = floor_div(-a, MAP_WIDTH as i128);
        proof {
            let most: int = 15461882265600000000int;
            lemma_floor_ordered(-most, -a, MAP_WIDTH as int);
            lemma_floor_ordered(-a, most, MAP_WIDTH as int);
            lemma_floor_unique(-most, MAP_WIDTH as int, -14400000000);
            lemma_floor_unique(most, MAP_WIDTH as int, 14400000000);
        }
        (-down - HALF_TURN as i128) as i64
    }

    /// Computes [`WebMercator::held`].
    fn hold(v: i64) -> (r: i32)
        ensures
            r == Self::held(v as int),
    {
        if v < i32::MIN as i64 {
            i32::MIN
        } else if v > i32::MAX as i64 {
            i32::MAX
        } else {
            v as i32
        }
    }

    /// A box of locations for the box `places` of the map, given the
    /// latitudes `north` and `south` at which the conformal formula gives the
    /// least and the greatest y coordinate of `places`. The box holds every
    /// longitude whose x coordinate lies in `places`, and no other that a
    /// location can hold. Where `places` reaches an edge of the map, to which
    /// the latitudes beyond are confined, the box reaches as far as a
    /// location can.
    pub fn extent_with(&self, places: BBox, north: i32, south: i32) -> (r: LocationBox)
        ensures
            r.min.lon == Self::held(Self::first_longitude(places.min.x as int)),
            r.max.lon == Self::held(Self::first_longitude(places.max.x + 1) - 1),
            forall|lon: i32|
                places.min.x <= #[trigger] Self::easting(lon as int) <= places.max.x ==> r.min.lon <= lon
                    <= r.max.lon,
            r.max.lat == if places.min.y <= 0 {
                i32::MAX
            } else {
                north
            },
            r.min.lat == if places.max.y >= MAP_WIDTH {
                i32::MIN
            } else {
                south
            },
    {
        let west = Self::hold(Self::first_longitude_of(places.min.x as i64));
        let east = Self::hold(Self::first_longitude_of(places.max.x as i64 + 1) - 1);
        proof {
            assert forall|lon: i32|
                places.min.x <= #[trigger] Self::easting(lon as int) <= places.max.x implies west <= lon
                <= east by {
                Self::lemma_first_longitude(places.min.x as int, lon as int);
                Self::lemma_first_longitude(places.max.x + 1, lon as int);
            }
        }
        LocationBox {
            min: Location { lon: west, lat: if places.max.y >= MAP_WIDTH { i32::MIN } else { south } },
            max: Location { lon: east, lat: if places.min.y <= 0 { i32::MAX } else { north } },
        }
    }

    /// The place of `location`, given the y coordinate `conformal_y` that the
    /// conformal formula gives for its latitude, in the units of a
    /// [`Point`]. Near the poles that coordinate runs off the map, and is
    /// confined to it.
    pub fn project_with(&self, location: Location, conformal_y: i64) -> (p: Point)
        ensures
            p.x == Self::easting(location.lon as int),
            p.y == Self::confined(conformal_y as int),
            0 <= p.y <= MAP_WIDTH,
    {
        let turned: i128 = location.lon as i128 + HALF_TURN as i128;
        proof {
            assert(-0x8000_0000_0000_0000 <= turned * MAP_WIDTH <= 0x8000_0000_0000_0000)
                by (nonlinear_arith)
                requires
                    -0x1_0000_0000 <= turned <= 0x1_0000_0000,
                    MAP_WIDTH == 0x4000_0000,
            ;
            let lower = (-0x8000_0000 + HALF_TURN) * MAP_WIDTH;
            let upper = (0x7fff_ffff + HALF_TURN) * MAP_WIDTH;
            assert(lower <= turned * MAP_WIDTH <= upper) by (nonlinear_arith)
                requires
                    -0x8000_0000 + HALF_TURN <= turned <= 0x7fff_ffff + HALF_TURN,
                    lower == (-0x8000_0000 + HALF_TURN) * MAP_WIDTH,
                    upper == (0x7fff_ffff + HALF_TURN) * MAP_WIDTH,
                    MAP_WIDTH == 0x4000_0000,
            ;
            lemma_floor_ordered(lower, turned * MAP_WIDTH, 2 * HALF_TURN);
            lemma_floor_ordered(turned * MAP_WIDTH, upper, 2 * HALF_TURN);
            assert(lower / (2 * HALF_TURN) >= -0x8000_0000) by {
                lemma_floor_ordered(-0x8000_0000 * (2 * HALF_TURN), lower, 2 * HALF_TURN);
                lemma_floor_unique(-0x8000_0000 * (2 * HALF_TURN), 2 * HALF_TURN, -0x8000_0000);
            }
            assert(upper / (2 * HALF_TURN) <= 0x7fff_ffff) by {
                lemma_floor_ordered(upper, 0x7fff_ffff * (2 * HALF_TURN), 2 * HALF_TURN);
                lemma_floor_unique(0x7fff_ffff * (2 * HALF_TURN), 2 * HALF_TURN, 0x7fff_ffff);
            }
        }
        let x: i128 = floor_div(turned * MAP_WIDTH as i128, 2 * HALF_TURN as i128);
        let y: i32 = if conformal_y < 0 {
            0
        } else if conformal_y > MAP_WIDTH as i64 {
            MAP_WIDTH
        } else {
            conformal_y as i32
        };
        Point { x: x as i32, y }
    }
}

} // verus!
