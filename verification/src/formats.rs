//! What the tiles are made of.
use vstd::prelude::*;
use vstd::slice::slice_to_vec;
use crate::geometry::Point;
use crate::geometry::bbox::BBox;

verus! {

/// What a tile holds: its box, and the areas, nodes and lines that were
/// added to it, each kind in the order of adding.
pub struct Content<F> {
    pub bbox: BBox,
    pub areas: Seq<(Seq<Point>, F)>,
    pub nodes: Seq<(Point, F)>,
    pub lines: Seq<(Seq<Point>, F)>,
}

impl<F> Content<F> {
    /// The content of a new tile.
    pub open spec fn empty(bbox: BBox) -> Self {
        Content { bbox, areas: Seq::empty(), nodes: Seq::empty(), lines: Seq::empty() }
    }

    /// This content and one more area.
    pub open spec fn with_area(self, area: Seq<Point>, category: F) -> Self {
        Content { areas: self.areas.push((area, category)), ..self }
    }

    /// This content and one more node.
    pub open spec fn with_node(self, node: Point, category: F) -> Self {
        Content { nodes: self.nodes.push((node, category)), ..self }
    }

    /// This content and one more line.
    pub open spec fn with_line(self, line: Seq<Point>, category: F) -> Self {
        Content { lines: self.lines.push((line, category)), ..self }
    }
}

/// A tile under construction: it is made empty for its box, and takes the
/// geometry that falls into it piece by piece.
pub trait Constructable<F>: Sized {
    /// What the tile holds.
    spec fn content(&self) -> Content<F>;

    /// An empty tile for the box `bbox`.
    fn new(bbox: BBox) -> (tile: Self)
        ensures
            tile.content() == Content::<F>::empty(bbox),
    ;

    /// Adds the closed ring `area`.
    fn add_area(&mut self, area: &[Point], category: F)
        requires
            area@.len() > 0,
        ensures
            final(self).content() == old(self).content().with_area(area@, category),
    ;

    /// Adds the single point `node`.
    fn add_node(&mut self, node: Point, category: F)
        ensures
            final(self).content() == old(self).content().with_node(node, category),
    ;

    /// Adds the open line `line`.
    fn add_line(&mut self, line: &[Point], category: F)
        requires
            line@.len() > 0,
        ensures
            final(self).content() == old(self).content().with_line(line@, category),
    ;
}

/// A tile that keeps what it is given as it comes.
pub struct Tile<F> {
    pub bbox: BBox,
    pub areas: Vec<(Vec<Point>, F)>,
    pub nodes: Vec<(Point, F)>,
    pub lines: Vec<(Vec<Point>, F)>,
}

impl<F> Constructable<F> for Tile<F> {
    open spec fn content(&self) -> Content<F> {
        Content {
            bbox: self.bbox,
            areas: self.areas@.map_values(|area: (Vec<Point>, F)| (area.0@, area.1)),
            nodes: self.nodes@,
            lines: self.lines@.map_values(|line: (Vec<Point>, F)| (line.0@, line.1)),
        }
    }

    fn new(bbox: BBox) -> (tile: Self) {
        let tile = Tile { bbox, areas: Vec::new(), nodes: Vec::new(), lines: Vec::new() };
        assert(tile.content().areas =~= Seq::empty());
        assert(tile.content().lines =~= Seq::empty());
        tile
    }

    fn add_area(&mut self, area: &[Point], category: F) {
        self.areas.push((slice_to_vec(area), category));
        assert(self.content().areas =~= old(self).content().areas.push((area@, category)));
        assert(self.content().lines =~= old(self).content().lines);
    }

    fn add_node(&mut self, node: Point, category: F) {
        self.nodes.push((node, category));
        assert(self.content().areas =~= old(self).content().areas);
        assert(self.content().lines =~= old(self).content().lines);
    }

    fn add_line(&mut self, line: &[Point], category: F) {
        self.lines.push((slice_to_vec(line), category));
        assert(self.content().lines =~= old(self).content().lines.push((line@, category)));
        assert(self.content().areas =~= old(self).content().areas);
    }
}

} // verus!
