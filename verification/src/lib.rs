//! Cuts geographic features into a rectangular grid of map tiles.
//!
//! Coordinates are fixed-point integers: a [`geometry::Point`] holds two `i32`
//! values, and the full width of the map is [`projection::MAP_WIDTH`] units.
//! All arithmetic on them is exact or rounds downwards, and is proved free of
//! overflow.
pub mod features;
pub mod formats;
pub mod generator;
pub mod geometry;
pub mod osm;
pub mod projection;
