//! Points, tile indices and the algorithms that cut geometry along a grid.
use vstd::prelude::*;

pub mod arith;
pub mod bbox;
pub mod course;
pub mod grid;
pub mod path;
pub mod polygon;
pub mod strips;

verus! {

/// A position on the map, in fixed-point map units.
#[derive(Clone, Copy, Debug, PartialEq, Eq, Structural)]
pub struct Point {
    pub x: i32,
    pub y: i32,
}

/// Column and row of a tile. An index may lie outside the grid.
#[derive(Clone, Copy, Debug, PartialEq, Eq, Structural)]
pub struct Index {
    pub x: i64,
    pub y: i64,
}

} // verus!
