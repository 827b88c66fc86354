//! The generator of a world of tiles: it takes the features of the source
//! data one by one, and files what falls into each tile of its grid.
use vstd::prelude::*;
use vstd::slice::slice_subrange;
use crate::features::{FeatureParser, Tags};
use crate::formats::Constructable;
use crate::generator::layout::{centered, centered_grid};
use crate::generator::tiles::{TileArray, TileState, WorldState};
use crate::geometry::{Index, Point};
use crate::geometry::grid::{
    all_beside, clip_point, lemma_replay_concat, lemma_replay_push, point_events, replay, Event,
    GridGeometry,
};
use crate::geometry::course::{lemma_path_outside, segment_outside};
use crate::geometry::path::{clip_path, crossing, distance, path_events};
use crate::geometry::polygon::{
    combine_rings, combined, doubled_area, lemma_combined_without_holes, ring_views,
};
use crate::geometry::strips::{
    clip_polygon, lemma_polygon_beside, polygon_events, rectangle, rectangle_from_above,
};
use crate::osm::{Area, Node, NodeRef, Ring, Way};
use crate::projection::{Location, LocationBox, Projection};

pub mod layout;
pub mod tiles;

verus! {

/// A tile that is being filled: what it holds so far, and the points of the
/// path that is open in it.
pub struct Construction<T> {
    pub constructing: T,
    pub wip_way: Vec<Point>,
}

/// The places of those of `nodes` whose location is known, in their order.
pub open spec fn projected_points<P: Projection>(projection: P, nodes: Seq<NodeRef>) -> Seq<Point>
    decreases nodes.len(),
{
    if nodes.len() == 0 {
        Seq::empty()
    } else {
        let before = projected_points(projection, nodes.drop_last());
        match nodes.last().location {
            Some(location) => before.push(projection.place(location)),
            None => before,
        }
    }
}

/// Fills `points` with the places of those of `nodes` whose location is
/// known. What `points` held before is dropped; its storage is used again.
pub fn project_nodes<P: Projection>(projection: &P, nodes: &[NodeRef], points: &mut Vec<Point>)
    ensures
        final(points)@ == projected_points(*projection, nodes@),
{
    points.clear();
    let n = nodes.len();
    let mut i: usize = 0;
    assert(nodes@.subrange(0, 0) =~= Seq::<NodeRef>::empty());
    while i < n
        invariant
            i <= n,
            n == nodes@.len(),
            points@ == projected_points(*projection, nodes@.subrange(0, i as int)),
        decreases n - i,
    {
        proof {
            let next = nodes@.subrange(0, i + 1);
            assert(next.drop_last() =~= nodes@.subrange(0, i as int));
            assert(next.last() == nodes@[i as int]);
        }
        match projection.project(&nodes[i]) {
            Some(point) => {
                points.push(point);
            },
            None => {},
        }
        i = i + 1;
    }
    assert(nodes@.subrange(0, n as int) =~= nodes@);
}

/// The way is closed, or has no points at all: its first and its last point
/// are the same node.
pub open spec fn is_closed(nodes: Seq<NodeRef>) -> bool {
    nodes.len() == 0 || nodes.first().id == nodes.last().id
}

/// The callbacks for a way: those of the path through the places of its
/// nodes. A closed way gives none, nor does one of which fewer than two
/// places are known.
pub open spec fn way_events<P: Projection>(grid: GridGeometry, projection: P, nodes: Seq<NodeRef>) -> Seq<Event> {
    let points = projected_points(projection, nodes);
    if is_closed(nodes) || points.len() < 2 {
        Seq::empty()
    } else {
        path_events(grid, points)
    }
}

/// The callbacks for a node: those of its place, if its location is known.
pub open spec fn node_events<P: Projection>(grid: GridGeometry, projection: P, location: Option<Location>) -> Seq<Event> {
    match location {
        Some(location) => point_events(grid, projection.place(location)),
        None => Seq::empty(),
    }
}

/// The rings of the first `n` of the holes `inners`, without those of which
/// no place is known.
pub open spec fn gathered_holes<P: Projection>(projection: P, inners: Seq<Vec<NodeRef>>, n: nat) -> Seq<Seq<Point>>
    decreases n,
{
    if n == 0 {
        Seq::empty()
    } else {
        let before = gathered_holes(projection, inners, (n - 1) as nat);
        let hole = projected_points(projection, inners[n - 1]@);
        if hole.len() == 0 {
            before
        } else {
            before.push(hole)
        }
    }
}

/// The single ring that bounds one outer ring of an area and its holes.
pub open spec fn ring_polygon<P: Projection>(projection: P, ring: Ring) -> Seq<Point> {
    combined(
        projected_points(projection, ring.outer@),
        gathered_holes(projection, ring.inners@, ring.inners@.len()),
    )
}

/// The callbacks for the first `n` outer rings of an area.
pub open spec fn area_events<P: Projection>(grid: GridGeometry, projection: P, rings: Seq<Ring>, n: nat) -> Seq<Event>
    decreases n,
{
    if n == 0 {
        Seq::empty()
    } else {
        area_events(grid, projection, rings, (n - 1) as nat) + polygon_events(
            grid,
            ring_polygon(projection, rings[n - 1]),
        )
    }
}

/// The larger of two numbers.
pub open spec fn larger(a: nat, b: nat) -> nat {
    if a >= b {
        a
    } else {
        b
    }
}

/// The number of rings in store that the first `n` of the holes `inners`
/// take: one for each hole with a known place before the last of them, and
/// one more for the last, which is projected before it is seen to be empty.
pub open spec fn slots_needed<P: Projection>(projection: P, inners: Seq<Vec<NodeRef>>, n: nat) -> nat {
    if n == 0 {
        0
    } else {
        gathered_holes(projection, inners, (n - 1) as nat).len() + 1
    }
}

/// The number of rings in store after the first `n` outer rings of an area,
/// where `stored` were in store before: rings come to the store where the
/// holes of one outer ring take more than there are, and none leave it.
pub open spec fn stored_after<P: Projection>(stored: nat, projection: P, rings: Seq<Ring>, n: nat) -> nat
    decreases n,
{
    if n == 0 {
        stored
    } else {
        larger(
            stored_after(stored, projection, rings, (n - 1) as nat),
            slots_needed(projection, rings[n - 1].inners@, rings[n - 1].inners@.len()),
        )
    }
}

/// The number of rings in store after an area that appears, or does not.
pub open spec fn rings_after<P: Projection>(stored: nat, projection: P, appears: bool, rings: Seq<Ring>) -> nat {
    if appears {
        stored_after(stored, projection, rings, rings.len())
    } else {
        stored
    }
}

/// The greatest number of holes that one of the first `n` outer rings has.
pub open spec fn most_holes(rings: Seq<Ring>, n: nat) -> nat
    decreases n,
{
    if n == 0 {
        0
    } else {
        larger(most_holes(rings, (n - 1) as nat), rings[n - 1].inners@.len())
    }
}

/// No more holes are gathered than there are.
pub proof fn lemma_gathered_bounded<P: Projection>(projection: P, inners: Seq<Vec<NodeRef>>, n: nat)
    ensures
        gathered_holes(projection, inners, n).len() <= n,
        slots_needed(projection, inners, n) <= n,
    decreases n,
{
    if n > 0 {
        lemma_gathered_bounded(projection, inners, (n - 1) as nat);
    }
}

/// The rings in store never become more than there were, or than the holes
/// of one outer ring.
pub proof fn lemma_stored_bounded<P: Projection>(stored: nat, projection: P, rings: Seq<Ring>, n: nat)
    ensures
        stored <= stored_after(stored, projection, rings, n) <= larger(stored, most_holes(rings, n)),
    decreases n,
{
    if n > 0 {
        lemma_stored_bounded(stored, projection, rings, (n - 1) as nat);
        lemma_gathered_bounded(projection, rings[n - 1].inners@, rings[n - 1].inners@.len());
    }
}

/// Takes the features of the source data and files them into the tiles of a
/// grid.
pub struct WorldGenerator<P: Projection, T: Constructable<V::Feature>, V: FeatureParser> {
    /// A box that holds every location whose place lies in the grid: the
    /// source data outside of it need not be read.
    pub int_box: LocationBox,
    pub projection: P,
    /// Used again and again for the rings of the holes of one area.
    pub rings: Vec<Vec<Point>>,
    /// Used again and again for the points of one way or outer ring.
    pub points: Vec<Point>,
    pub world: TileArray<T, V::Feature>,
    pub visual_parser: V,
}

impl<P: Projection, T: Constructable<V::Feature>, V: FeatureParser> WorldGenerator<P, T, V> {
    /// The other generator has the same projection, the same parser of
    /// features and the same grid, and no fewer rings in store.
    pub open spec fn follows(&self, before: &Self) -> bool {
        &&& self.projection == before.projection
        &&& self.visual_parser == before.visual_parser
        &&& self.int_box == before.int_box
        &&& self.world.grid == before.world.grid
        &&& self.rings@.len() >= before.rings@.len()
    }

    /// The world after a node that appears as `category`, or does not appear.
    pub open spec fn node_outcome(
        world: WorldState<V::Feature>,
        projection: P,
        category: Option<V::Feature>,
        location: Option<Location>,
    ) -> WorldState<V::Feature> {
        match category {
            None => world,
            Some(_) => WorldState {
                node_type: None,
                ..replay::<TileArray<T, V::Feature>>(
                    WorldState { node_type: category, ..world },
                    node_events(world.grid, projection, location),
                )
            },
        }
    }

    /// The world after a way that appears as `category`, or does not appear.
    pub open spec fn way_outcome(
        world: WorldState<V::Feature>,
        projection: P,
        category: Option<V::Feature>,
        nodes: Seq<NodeRef>,
    ) -> WorldState<V::Feature> {
        match category {
            None => world,
            Some(_) => WorldState {
                way_type: None,
                ..replay::<TileArray<T, V::Feature>>(
                    WorldState { way_type: category, ..world },
                    way_events(world.grid, projection, nodes),
                )
            },
        }
    }

    /// The world after an area that appears as `category`, or does not
    /// appear.
    pub open spec fn area_outcome(
        world: WorldState<V::Feature>,
        projection: P,
        category: Option<V::Feature>,
        rings: Seq<Ring>,
    ) -> WorldState<V::Feature> {
        match category {
            None => world,
            Some(_) => WorldState {
                area_type: None,
                ..replay::<TileArray<T, V::Feature>>(
                    WorldState { area_type: category, ..world },
                    area_events(world.grid, projection, rings, rings.len()),
                )
            },
        }
    }

    /// A generator for `size.0` by `size.1` tiles of the zoom level `zoom`
    /// round `center`, with empty tiles.
    pub fn new(center: Location, size: (usize, usize), zoom: u8, visual_parser: V, projection: P) -> (generator: Self)
        requires
            centered_grid(projection.place(center), size.0 as int, size.1 as int, zoom as nat) is Some,
        ensures
            generator.world.ready(),
            Some(generator.world.grid) == centered_grid(
                projection.place(center),
                size.0 as int,
                size.1 as int,
                zoom as nat,
            ),
            generator.int_box == projection.extent(generator.world.grid.bbox()),
            forall|location: Location|
                generator.world.grid.in_range(generator.world.grid.lookup(#[trigger] projection.place(location)))
                    ==> generator.int_box.holds(location),
            generator.projection == projection,
            generator.visual_parser == visual_parser,
            generator.rings@.len() == 0,
            generator.points@.len() == 0,
            forall|i: int|
                0 <= i < generator.world.tiles@.len() ==> TileArray::<T, V::Feature>::is_fresh(
                    #[trigger] generator.world.tiles@[i],
                    generator.world.grid,
                    i,
                ),
    {
        let found = centered(projection._project(center), size.0, size.1, zoom);
        let grid = found.unwrap();
        let int_box = projection.locations_within(grid.bounds());
        proof {
            assert forall|location: Location|
                grid.in_range(grid.lookup(#[trigger] projection.place(location))) implies int_box.holds(
                location,
            ) by {
                grid.lemma_owned_in_bbox(projection.place(location));
            }
        }
        WorldGenerator {
            int_box,
            projection,
            rings: Vec::new(),
            points: Vec::new(),
            world: TileArray::new(grid),
            visual_parser,
        }
    }

    /// The tiles as they are, row by row.
    pub fn into_tiles(self) -> (tiles: Vec<T>)
        ensures
            tiles@.len() == self.world.tiles@.len(),
            forall|i: int| 0 <= i < tiles@.len() ==> #[trigger] tiles@[i] == self.world.tiles@[i].constructing,
    {
        self.world.into_tiles()
    }

    /// Files a node that appears as `category`. A node that does not appear,
    /// or whose location is not known, changes nothing.
    pub fn add_node(&mut self, category: Option<V::Feature>, node: &Node)
        requires
            old(self).world.ready(),
        ensures
            final(self).world.ready(),
            final(self).follows(old(self)),
            final(self).world@ == Self::node_outcome(
                old(self).world@,
                old(self).projection,
                category,
                node.location,
            ),
            node.location is None ==> final(self).world@ == old(self).world@,
            final(self).rings == old(self).rings,
    {
        proof {
            if node.location is None {
                Self::lemma_node_outside(self.world@, self.projection, category, node.location);
            }
        }
        if category.is_none() {
            return ;
        }
        let ghost state0 = WorldState { node_type: category, ..self.world@ };
        self.world.node_type = category;
        proof {
            assert(self.world@ == state0);
            TileArray::<T, V::Feature>::lemma_replay_keeps(
                state0,
                node_events(self.world.grid, self.projection, node.location),
            );
        }
        match self.projection.project(node) {
            Some(point) => {
                clip_point(&mut self.world, point);
            },
            None => {},
        }
        self.world.node_type = None;
    }

    /// Files a way that appears as `category`: the path through the places of
    /// its nodes is cut along the grid. A way that does not appear, a closed
    /// way, and one of which fewer than two places are known change nothing.
    pub fn add_way(&mut self, category: Option<V::Feature>, nodes: &[NodeRef])
        requires
            old(self).world.ready(),
        ensures
            final(self).world.ready(),
            final(self).follows(old(self)),
            final(self).world@ == Self::way_outcome(
                old(self).world@,
                old(self).projection,
                category,
                nodes@,
            ),
            is_closed(nodes@) ==> final(self).world@ == old(self).world@,
            final(self).rings == old(self).rings,
    {
        if category.is_none() {
            return ;
        }
        let n = nodes.len();
        if n == 0 {
            return ;
        }
        if nodes[0].id == nodes[n - 1].id {
            return ;
        }
        project_nodes(&self.projection, nodes, &mut self.points);
        if self.points.len() < 2 {
            return ;
        }
        let ghost state0 = WorldState { way_type: category, ..self.world@ };
        self.world.way_type = category;
        proof {
            assert(self.world@ == state0);
            TileArray::<T, V::Feature>::lemma_replay_keeps(
                state0,
                way_events(self.world.grid, self.projection, nodes@),
            );
        }
        clip_path(&mut self.world, self.points.as_slice());
        self.world.way_type = None;
    }

    /// Projects the rings of the holes `inners` into the rings in store, one
    /// after the other from the first, and returns how many of them have
    /// points. A ring without points is written over by the next.
    fn gather_holes(&mut self, inners: &[Vec<NodeRef>]) -> (count: usize)
        ensures
            final(self).follows(old(self)),
            final(self).world == old(self).world,
            final(self).points == old(self).points,
            count <= final(self).rings@.len(),
            ring_views(final(self).rings@.subrange(0, count as int)) == gathered_holes(
                old(self).projection,
                inners@,
                inners@.len(),
            ),
            final(self).rings@.len() == larger(
                old(self).rings@.len(),
                slots_needed(old(self).projection, inners@, inners@.len()),
            ),
    {
        let m = inners.len();
        let mut count: usize = 0;
        let mut j: usize = 0;
        assert(ring_views(self.rings@.subrange(0, 0)) =~= Seq::<Seq<Point>>::empty());
        while j < m
            invariant
                j <= m,
                m == inners@.len(),
                count <= j,
                count <= self.rings@.len(),
                self.follows(old(self)),
                self.world == old(self).world,
                self.points == old(self).points,
                ring_views(self.rings@.subrange(0, count as int)) == gathered_holes(
                    self.projection,
                    inners@,
                    j as nat,
                ),
                self.rings@.len() == larger(
                    old(self).rings@.len(),
                    slots_needed(self.projection, inners@, j as nat),
                ),
            decreases m - j,
        {
            let ghost before = self.rings@.subrange(0, count as int);
            assert(ring_views(before).len() == count);
            assert(slots_needed(self.projection, inners@, (j + 1) as nat) == count + 1);
            proof {
                if j > 0 {
                    let earlier = gathered_holes(self.projection, inners@, (j - 1) as nat);
                    assert(earlier.len() <= gathered_holes(self.projection, inners@, j as nat).len());
                }
            }
            if count < self.rings.len() {
                project_nodes(&self.projection, inners[j].as_slice(), &mut self.rings[count]);
            } else {
                let mut fresh: Vec<Point> = Vec::new();
                project_nodes(&self.projection, inners[j].as_slice(), &mut fresh);
                self.rings.push(fresh);
            }
            assert(self.rings@.subrange(0, count as int) =~= before);
            if self.rings[count].len() > 0 {
                assert(ring_views(self.rings@.subrange(0, count + 1)) =~= ring_views(before).push(
                    self.rings@[count as int]@,
                ));
                count = count + 1;
            }
            j = j + 1;
        }
        count
    }

    /// Files an area that appears as `category`: each outer ring is joined
    /// with its holes to one ring, which is cut along the grid. An area that
    /// does not appear changes nothing.
    pub fn add_area(&mut self, category: Option<V::Feature>, rings: &[Ring])
        requires
            old(self).world.ready(),
        ensures
            final(self).world.ready(),
            final(self).follows(old(self)),
            final(self).world@ == Self::area_outcome(
                old(self).world@,
                old(self).projection,
                category,
                rings@,
            ),
            final(self).rings@.len() == rings_after(
                old(self).rings@.len(),
                old(self).projection,
                category is Some,
                rings@,
            ),
            final(self).rings@.len() <= larger(old(self).rings@.len(), most_holes(rings@, rings@.len())),
            category is None ==> final(self).rings == old(self).rings,
    {
        proof {
            lemma_stored_bounded(self.rings@.len(), self.projection, rings@, rings@.len());
        }
        if category.is_none() {
            return ;
        }
        let ghost state0 = WorldState { area_type: category, ..self.world@ };
        let ghost grid = self.world.grid;
        self.world.area_type = category;
        assert(self.world@ == state0);
        let n = rings.len();
        let mut k: usize = 0;
        while k < n
            invariant
                k <= n,
                n == rings@.len(),
                grid == old(self).world.grid,
                state0.grid == grid,
                self.follows(old(self)),
                self.world.inv(),
                self.world@.idle(),
                self.world@ == replay::<TileArray<T, V::Feature>>(
                    state0,
                    area_events(grid, self.projection, rings@, k as nat),
                ),
                self.rings@.len() == stored_after(
                    old(self).rings@.len(),
                    self.projection,
                    rings@,
                    k as nat,
                ),
            decreases n - k,
        {
            let ring = &rings[k];
            project_nodes(&self.projection, ring.outer.as_slice(), &mut self.points);
            let count = self.gather_holes(ring.inners.as_slice());
            let ghost outer = self.points@;
            let ghost holes = gathered_holes(self.projection, ring.inners@, ring.inners@.len());
            if count > 0 {
                combine_rings(&mut self.points, slice_subrange(self.rings.as_slice(), 0, count));
            } else {
                proof {
                    lemma_combined_without_holes(outer, holes);
                }
            }
            assert(self.points@ == ring_polygon(self.projection, *ring));
            proof {
                lemma_replay_concat::<TileArray<T, V::Feature>>(
                    state0,
                    area_events(grid, self.projection, rings@, k as nat),
                    polygon_events(grid, self.points@),
                );
            }
            clip_polygon(&mut self.world, self.points.as_slice());
            k = k + 1;
        }
        proof {
            TileArray::<T, V::Feature>::lemma_replay_keeps(
                state0,
                area_events(grid, self.projection, rings@, n as nat),
            );
        }
        self.world.area_type = None;
    }

    /// Takes a node of the source data: the parser of features is asked as
    /// what a node with the tags of this node appears, and
    /// [`WorldGenerator::add_node`] files the node as the parser answers.
    pub fn node(&mut self, node: &Node)
        requires
            old(self).world.ready(),
        ensures
            final(self).world.ready(),
            final(self).follows(old(self)),
            final(self).rings == old(self).rings,
            exists|category: Option<V::Feature>|
                old(self).visual_parser.node_answer(node.tags.pairs(), category) && final(self).world@
                    == Self::node_outcome(old(self).world@, old(self).projection, category, node.location),
            node.location is None ==> final(self).world@ == old(self).world@,
    {
        let category = self.visual_parser.node(&node.tags);
        self.add_node(category, node);
    }

    /// Takes a way of the source data: the parser of features is asked as
    /// what a way with the tags of this way appears, and
    /// [`WorldGenerator::add_way`] files the way as the parser answers.
    pub fn way(&mut self, way: &Way)
        requires
            old(self).world.ready(),
        ensures
            final(self).world.ready(),
            final(self).follows(old(self)),
            final(self).rings == old(self).rings,
            exists|category: Option<V::Feature>|
                old(self).visual_parser.way_answer(way.tags.pairs(), category) && final(self).world@
                    == Self::way_outcome(old(self).world@, old(self).projection, category, way.nodes@),
            is_closed(way.nodes@) ==> final(self).world@ == old(self).world@,
    {
        let category = self.visual_parser.way(&way.tags);
        self.add_way(category, way.nodes.as_slice());
    }

    /// Takes an area of the source data: the parser of features is asked as
    /// what an area with the tags of this area appears, and
    /// [`WorldGenerator::add_area`] files the area as the parser answers.
    pub fn area(&mut self, area: &Area)
        requires
            old(self).world.ready(),
        ensures
            final(self).world.ready(),
            final(self).follows(old(self)),
            final(self).rings@.len() <= larger(old(self).rings@.len(), most_holes(area.rings@, area.rings@.len())),
            exists|category: Option<V::Feature>|
                {
                    &&& old(self).visual_parser.area_answer(area.tags.pairs(), category)
                    &&& final(self).world@ == Self::area_outcome(
                        old(self).world@,
                        old(self).projection,
                        category,
                        area.rings@,
                    )
                    &&& final(self).rings@.len() == rings_after(
                        old(self).rings@.len(),
                        old(self).projection,
                        category is Some,
                        area.rings@,
                    )
                    &&& category is None ==> final(self).rings == old(self).rings
                },
    {
        let category = self.visual_parser.area(&area.tags);
        self.add_area(category, area.rings.as_slice());
    }
}

impl<P: Projection, T: Constructable<V::Feature>, V: FeatureParser> WorldGenerator<P, T, V> {
    /// A node that appears as `category` and whose place a tile of the grid
    /// owns becomes one node of that tile, and nothing else changes.
    pub proof fn lemma_node_in_range(
        world: WorldState<V::Feature>,
        projection: P,
        category: V::Feature,
        location: Location,
    )
        requires
            world.node_type is None,
            world.grid.in_range(world.grid.lookup(projection.place(location))),
        ensures
            ({
                let place = projection.place(location);
                let at_hand = WorldState { node_type: Some(category), ..world };
                Self::node_outcome(world, projection, Some(category), Some(location)) == (WorldState {
                    node_type: None,
                    ..at_hand.with_point(world.grid.lookup(place), place)
                })
            }),
    {
        let place = projection.place(location);
        let at_hand = WorldState { node_type: Some(category), ..world };
        let event = Event::PointAdd(world.grid.lookup(place), place);
        assert(point_events(world.grid, place) =~= Seq::<Event>::empty().push(event));
        lemma_replay_push::<TileArray<T, V::Feature>>(at_hand, Seq::empty(), event);
    }

    /// A node that lies outside the grid, or whose location is not known,
    /// leaves the world as it is.
    pub proof fn lemma_node_outside(
        world: WorldState<V::Feature>,
        projection: P,
        category: Option<V::Feature>,
        location: Option<Location>,
    )
        requires
            world.node_type is None,
            location matches Some(l) ==> !world.grid.in_range(world.grid.lookup(projection.place(l))),
        ensures
            Self::node_outcome(world, projection, category, location) == world,
    {
    }

    /// A way of which each segment lies wholly outside the box of the grid
    /// leaves the world as it is.
    pub proof fn lemma_way_outside(
        world: WorldState<V::Feature>,
        projection: P,
        category: Option<V::Feature>,
        nodes: Seq<NodeRef>,
    )
        requires
            world.grid.wf(),
            world.way_type is None,
            forall|i: int|
                0 <= i < projected_points(projection, nodes).len() - 1 ==> segment_outside(
                    world.grid,
                    #[trigger] projected_points(projection, nodes)[i],
                    projected_points(projection, nodes)[i + 1],
                ),
        ensures
            Self::way_outcome(world, projection, category, nodes) == world,
    {
        let points = projected_points(projection, nodes);
        if points.len() >= 2 {
            lemma_path_outside(world.grid, points);
        }
    }

    /// An area of which each joined ring has all its points on one side of
    /// the grid leaves the world as it is.
    pub proof fn lemma_area_outside(
        world: WorldState<V::Feature>,
        projection: P,
        category: Option<V::Feature>,
        rings: Seq<Ring>,
    )
        requires
            world.grid.wf(),
            world.area_type is None,
            forall|k: int|
                0 <= k < rings.len() ==> all_beside(world.grid, ring_polygon(projection, #[trigger] rings[k])),
        ensures
            Self::area_outcome(world, projection, category, rings) == world,
    {
        Self::lemma_area_events_outside(world.grid, projection, rings, rings.len());
    }

    proof fn lemma_area_events_outside(grid: GridGeometry, projection: P, rings: Seq<Ring>, n: nat)
        requires
            grid.wf(),
            n <= rings.len(),
            forall|k: int| 0 <= k < rings.len() ==> all_beside(grid, ring_polygon(projection, #[trigger] rings[k])),
        ensures
            area_events(grid, projection, rings, n) == Seq::<Event>::empty(),
        decreases n,
    {
        if n > 0 {
            Self::lemma_area_events_outside(grid, projection, rings, (n - 1) as nat);
            lemma_polygon_beside(grid, ring_polygon(projection, rings[n - 1]));
            assert(area_events(grid, projection, rings, n) =~= Seq::<Event>::empty());
        }
    }
}

impl<P: Projection, T: Constructable<V::Feature>, V: FeatureParser> WorldGenerator<P, T, V> {
    /// A way that appears as `category` and lies in one tile of the grid
    /// becomes one line of that tile, with the places of all its nodes in
    /// their order, and nothing else changes.
    pub proof fn lemma_way_in_one_tile(
        world: WorldState<V::Feature>,
        projection: P,
        category: V::Feature,
        nodes: Seq<NodeRef>,
        index: Index,
    )
        requires
            world.way_type is None,
            world.grid.in_range(index),
            0 <= world.offset(index) < world.tiles.len(),
            world.tiles[world.offset(index)].open.len() == 0,
            !is_closed(nodes),
            projected_points(projection, nodes).len() >= 2,
            forall|i: int|
                0 <= i < projected_points(projection, nodes).len() ==> #[trigger] world.grid.lookup(
                    projected_points(projection, nodes)[i],
                ) == index,
        ensures
            Self::way_outcome(world, projection, Some(category), nodes) == world.with_tile(
                index,
                TileState {
                    content: world.tiles[world.offset(index)].content.with_line(
                        projected_points(projection, nodes),
                        category,
                    ),
                    open: Seq::empty(),
                },
            ),
    {
        let points = projected_points(projection, nodes);
        let at_hand = WorldState { way_type: Some(category), ..world };
        TileArray::<T, V::Feature>::lemma_path_in_one_tile_is_one_line(at_hand, points, index);
    }

    /// An area that appears as `category` and has one ring, which after its
    /// holes are joined to it lies in one tile of the grid, has three points
    /// or more and encloses an area, becomes one area of that tile, and
    /// nothing else changes.
    pub proof fn lemma_area_in_one_tile(
        world: WorldState<V::Feature>,
        projection: P,
        category: V::Feature,
        ring: Ring,
        index: Index,
    )
        requires
            world.area_type is None,
            world.grid.wf(),
            world.grid.in_range(index),
            ring_polygon(projection, ring).len() >= 3,
            doubled_area(ring_polygon(projection, ring)) != 0,
            forall|i: int|
                0 <= i < ring_polygon(projection, ring).len() ==> #[trigger] world.grid.lookup(
                    ring_polygon(projection, ring)[i],
                ) == index,
        ensures
            Self::area_outcome(world, projection, Some(category), seq![ring]) == world.with_tile(
                index,
                TileState {
                    content: world.tiles[world.offset(index)].content.with_area(
                        ring_polygon(projection, ring),
                        category,
                    ),
                    ..world.tiles[world.offset(index)]
                },
            ),
    {
        let polygon = ring_polygon(projection, ring);
        let rings = seq![ring];
        let at_hand = WorldState { area_type: Some(category), ..world };
        TileArray::<T, V::Feature>::lemma_polygon_in_one_tile_is_one_area(at_hand, polygon, index);
        assert(area_events(world.grid, projection, rings, 0) =~= Seq::<Event>::empty());
        assert(rings[0] == ring);
        assert(area_events(world.grid, projection, rings, 1) =~= polygon_events(world.grid, polygon));
    }
}

impl<P: Projection, T: Constructable<V::Feature>, V: FeatureParser> WorldGenerator<P, T, V> {
    /// An area that appears as `category` and has one ring, which after its
    /// holes are joined to it is a rectangle over the point at which the four
    /// tiles of a grid of two by two tiles meet, becomes one area of each of
    /// the four tiles, and nothing else changes.
    pub proof fn lemma_area_over_four_tiles(
        world: WorldState<V::Feature>,
        projection: P,
        category: V::Feature,
        ring: Ring,
        lo: Point,
        hi: Point,
    )
        requires
            world.area_type is None,
            world.grid.wf(),
            world.grid.size.x == 2,
            world.grid.size.y == 2,
            world.grid.line_x(0) <= lo.x < world.grid.line_x(1) < hi.x < world.grid.line_x(2),
            world.grid.line_y(0) <= lo.y < world.grid.line_y(1) < hi.y < world.grid.line_y(2),
            ring_polygon(projection, ring) == rectangle(lo, hi),
        ensures
            ({
                let mx = world.grid.line_x(1) as i32;
                let my = world.grid.line_y(1) as i32;
                let at_hand = WorldState { area_type: Some(category), ..world };
                Self::area_outcome(world, projection, Some(category), seq![ring]) == (WorldState {
                    area_type: None,
                    ..at_hand.with_polygon(
                        Index { x: 0, y: 0 },
                        rectangle_from_above(lo, Point { x: mx, y: my }),
                    ).with_polygon(
                        Index { x: 0, y: 1 },
                        rectangle(Point { x: lo.x, y: my }, Point { x: mx, y: hi.y }),
                    ).with_polygon(
                        Index { x: 1, y: 0 },
                        rectangle_from_above(Point { x: mx, y: lo.y }, Point { x: hi.x, y: my }),
                    ).with_polygon(Index { x: 1, y: 1 }, rectangle(Point { x: mx, y: my }, hi))
                })
            }),
    {
        let rings = seq![ring];
        let at_hand = WorldState { area_type: Some(category), ..world };
        TileArray::<T, V::Feature>::lemma_rectangle_is_four_areas(at_hand, lo, hi);
        assert(area_events(world.grid, projection, rings, 0) =~= Seq::<Event>::empty());
        assert(rings[0] == ring);
        assert(area_events(world.grid, projection, rings, 1) =~= polygon_events(
            world.grid,
            rectangle(lo, hi),
        ));
    }
}

impl<P: Projection, T: Constructable<V::Feature>, V: FeatureParser> WorldGenerator<P, T, V> {
    /// A way that appears as `category` and leads from a place in one tile
    /// of the grid to a place in a tile that shares an edge with it becomes
    /// one line of each of the two tiles; the first ends and the second
    /// begins at the point at which the way meets the edge. Nothing else
    /// changes.
    pub proof fn lemma_way_between_neighbours(
        world: WorldState<V::Feature>,
        projection: P,
        category: V::Feature,
        nodes: Seq<NodeRef>,
        p: Point,
        q: Point,
    )
        requires
            world.way_type is None,
            !is_closed(nodes),
            projected_points(projection, nodes) == seq![p, q],
            world.grid.in_range(world.grid.lookup(p)),
            world.grid.in_range(world.grid.lookup(q)),
            distance(world.grid.lookup(p), world.grid.lookup(q)) == 1,
            0 <= world.offset(world.grid.lookup(p)) < world.tiles.len(),
            0 <= world.offset(world.grid.lookup(q)) < world.tiles.len(),
            world.tiles[world.offset(world.grid.lookup(p))].open.len() == 0,
            world.tiles[world.offset(world.grid.lookup(q))].open.len() == 0,
        ensures
            ({
                let a = world.grid.lookup(p);
                let b = world.grid.lookup(q);
                let c = crossing(world.grid, p, q, a, b).point;
                let at_hand = WorldState { way_type: Some(category), ..world };
                Self::way_outcome(world, projection, Some(category), nodes) == (WorldState {
                    way_type: None,
                    ..at_hand.with_line(a, seq![p, c]).with_line(b, seq![c, q])
                })
            }),
    {
        let at_hand = WorldState { way_type: Some(category), ..world };
        TileArray::<T, V::Feature>::lemma_path_between_neighbours_is_two_lines(at_hand, p, q);
    }
}

} // verus!
