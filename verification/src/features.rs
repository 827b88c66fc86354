//! From the tags of the source data to the features of the map.
use std::sync::Arc;
use vstd::prelude::*;

pub mod simple;

verus! {

/// A list of tags: pairs of a key and a value, in their order. A key may
/// occur more than once.
pub trait Tags {
    /// The pairs of the list.
    spec fn pairs(&self) -> Seq<(Seq<char>, Seq<char>)>;

    /// The number of pairs.
    fn count(&self) -> (n: usize)
        ensures
            n == self.pairs().len(),
    ;

    /// The key of the pair at `i`.
    fn key(&self, i: usize) -> (k: &str)
        requires
            i < self.pairs().len(),
        ensures
            k@ == self.pairs()[i as int].0,
    ;

    /// The value of the pair at `i`.
    fn value(&self, i: usize) -> (v: &str)
        requires
            i < self.pairs().len(),
        ensures
            v@ == self.pairs()[i as int].1,
    ;
}

/// Decides from the tags of a piece of source data as what, if at all, it
/// appears on the map.
pub trait FeatureParser {
    /// What a piece of source data appears as.
    type Feature: Copy;

    /// `answer` is what this parser may say of an area with the tags `pairs`.
    spec fn area_answer(&self, pairs: Pairs, answer: Option<Self::Feature>) -> bool;

    /// `answer` is what this parser may say of a node with the tags `pairs`.
    spec fn node_answer(&self, pairs: Pairs, answer: Option<Self::Feature>) -> bool;

    /// `answer` is what this parser may say of a way with the tags `pairs`.
    spec fn way_answer(&self, pairs: Pairs, answer: Option<Self::Feature>) -> bool;

    /// What an area with these tags appears as, if it appears.
    fn area<T: Tags>(&self, area: &T) -> (r: Option<Self::Feature>)
        ensures
            self.area_answer(area.pairs(), r),
    ;

    /// What a node with these tags appears as, if it appears.
    fn node<T: Tags>(&self, node: &T) -> (r: Option<Self::Feature>)
        ensures
            self.node_answer(node.pairs(), r),
    ;

    /// What a way with these tags appears as, if it appears.
    fn way<T: Tags>(&self, way: &T) -> (r: Option<Self::Feature>)
        ensures
            self.way_answer(way.pairs(), r),
    ;
}

/// A parser of features that is shared decides as the parser itself does.
impl<P: FeatureParser> FeatureParser for Arc<P> {
    type Feature = P::Feature;

    fn area<T: Tags>(&self, area: &T) -> (r: Option<Self::Feature>) {
        (**self).area(area)
    }

    fn node<T: Tags>(&self, node: &T) -> (r: Option<Self::Feature>) {
        (**self).node(node)
    }

    fn way<T: Tags>(&self, way: &T) -> (r: Option<Self::Feature>) {
        (**self).way(way)
    }

    open spec fn area_answer(&self, pairs: Pairs, answer: Option<Self::Feature>) -> bool {
        (**self).area_answer(pairs, answer)
    }

    open spec fn node_answer(&self, pairs: Pairs, answer: Option<Self::Feature>) -> bool {
        (**self).node_answer(pairs, answer)
    }

    open spec fn way_answer(&self, pairs: Pairs, answer: Option<Self::Feature>) -> bool {
        (**self).way_answer(pairs, answer)
    }
}

/// The pairs of a list of tags: the characters of each key and of its value.
pub type Pairs = Seq<(Seq<char>, Seq<char>)>;

impl Tags for Vec<(String, String)> {
    open spec fn pairs(&self) -> Seq<(Seq<char>, Seq<char>)> {
        self@.map_values(|pair: (String, String)| (pair.0@, pair.1@))
    }

    fn count(&self) -> (n: usize) {
        self.len()
    }

    fn key(&self, i: usize) -> (k: &str) {
        self[i].0.as_str()
    }

    fn value(&self, i: usize) -> (v: &str) {
        self[i].1.as_str()
    }
}

} // verus!
