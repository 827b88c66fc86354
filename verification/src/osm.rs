//! The features of the source data, as plain values.
use vstd::prelude::*;
use crate::projection::{GetLocation, Location};

verus! {

/// A single node with its tags. Its location may be missing.
pub struct Node {
    pub id: i64,
    pub location: Option<Location>,
    pub tags: Vec<(String, String)>,
}

/// A point of a way or of a ring: the identifier of a node, and the location
/// of that node where it is known.
#[derive(Clone, Copy, Debug, PartialEq, Eq, Structural)]
pub struct NodeRef {
    pub id: i64,
    pub location: Option<Location>,
}

/// An open or closed line with its tags.
pub struct Way {
    pub tags: Vec<(String, String)>,
    pub nodes: Vec<NodeRef>,
}

/// An outer ring of an area together with the rings of its holes.
pub struct Ring {
    pub outer: Vec<NodeRef>,
    pub inners: Vec<Vec<NodeRef>>,
}

/// An area with its tags: one or more outer rings, each with its holes.
pub struct Area {
    pub tags: Vec<(String, String)>,
    pub rings: Vec<Ring>,
}

impl GetLocation for Node {
    open spec fn location(&self) -> Option<Location> {
        self.location
    }

    fn get_location(&self) -> (r: Option<Location>) {
        self.location
    }
}

impl GetLocation for NodeRef {
    open spec fn location(&self) -> Option<Location> {
        self.location
    }

    fn get_location(&self) -> (r: Option<Location>) {
        self.location
    }
}

} // verus!
