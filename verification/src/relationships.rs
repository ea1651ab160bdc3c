//! Links between nodes, paths and edges.
//!
//! A path has one source and one target node. Edges and paths are linked many to
//! many: a wall can lie on several paths.

use crate::components::EntityId;
use std::slice::Iter;
use vstd::prelude::*;
use vstd::std_specs::iter::IteratorSpec;

verus! {

/// The node that a path starts at.
#[derive(Clone, Copy, Debug, PartialEq, Eq, Structural)]
pub struct PathFrom(pub EntityId);

/// The node that a path ends at.
#[derive(Clone, Copy, Debug, PartialEq, Eq, Structural)]
pub struct PathTo(pub EntityId);

/// The paths that leave a node.
#[derive(Clone, Debug)]
pub struct OutgoingPaths(Vec<EntityId>);

/// The paths that arrive at a node.
#[derive(Clone, Debug)]
pub struct IncomingPaths(Vec<EntityId>);

/// The edges that make up a path, in the order in which it crosses them.
#[derive(Clone, Debug)]
pub struct PathEdges(Vec<EntityId>);

/// The paths that cross an edge.
#[derive(Clone, Debug)]
pub struct EdgePaths(Vec<EntityId>);

impl View for OutgoingPaths {
    type V = Seq<EntityId>;

    closed spec fn view(&self) -> Seq<EntityId> {
        self.0@
    }
}

impl Default for OutgoingPaths {
    fn default() -> (r: Self)
        ensures
            r@ == Seq::<EntityId>::empty(),
    {
        OutgoingPaths(Vec::new())
    }
}

impl OutgoingPaths {
    pub fn new(paths: Vec<EntityId>) -> (r: Self)
        ensures
            r@ == paths@,
    {
        OutgoingPaths(paths)
    }

    /// Walks through the paths in order.
    pub fn iter(&self) -> (r: Iter<'_, EntityId>)
        ensures
            r.remaining() == self@.as_ref(),
    {
        broadcast use vstd::std_specs::slice::axiom_spec_slice_iter;

        self.0.as_slice().iter()
    }

    pub fn len(&self) -> (n: usize)
        ensures
            n == self@.len(),
    {
        self.0.len()
    }

    pub fn is_empty(&self) -> (r: bool)
        ensures
            r == (self@.len() == 0),
    {
        self.0.len() == 0
    }

    /// The one at place `i`.
    pub fn get(&self, i: usize) -> (r: EntityId)
        requires
            i < self@.len(),
        ensures
            r == self@[i as int],
    {
        self.0[i]
    }
}

impl View for IncomingPaths {
    type V = Seq<EntityId>;

    closed spec fn view(&self) -> Seq<EntityId> {
        self.0@
    }
}

impl Default for IncomingPaths {
    fn default() -> (r: Self)
        ensures
            r@ == Seq::<EntityId>::empty(),
    {
        IncomingPaths(Vec::new())
    }
}

impl IncomingPaths {
    pub fn new(paths: Vec<EntityId>) -> (r: Self)
        ensures
            r@ == paths@,
    {
        IncomingPaths(paths)
    }

    /// Walks through the paths in order.
    pub fn iter(&self) -> (r: Iter<'_, EntityId>)
        ensures
            r.remaining() == self@.as_ref(),
    {
        broadcast use vstd::std_specs::slice::axiom_spec_slice_iter;

        self.0.as_slice().iter()
    }

    pub fn len(&self) -> (n: usize)
        ensures
            n == self@.len(),
    {
        self.0.len()
    }

    pub fn is_empty(&self) -> (r: bool)
        ensures
            r == (self@.len() == 0),
    {
        self.0.len() == 0
    }

    /// The one at place `i`.
    pub fn get(&self, i: usize) -> (r: EntityId)
        requires
            i < self@.len(),
        ensures
            r == self@[i as int],
    {
        self.0[i]
    }
}

impl View for PathEdges {
    type V = Seq<EntityId>;

    closed spec fn view(&self) -> Seq<EntityId> {
        self.0@
    }
}

impl Default for PathEdges {
    fn default() -> (r: Self)
        ensures
            r@ == Seq::<EntityId>::empty(),
    {
        PathEdges(Vec::new())
    }
}

impl PathEdges {
    pub fn new(edges: Vec<EntityId>) -> (r: Self)
        ensures
            r@ == edges@,
    {
        PathEdges(edges)
    }

    /// Walks through the edges in order.
    pub fn iter(&self) -> (r: Iter<'_, EntityId>)
        ensures
            r.remaining() == self@.as_ref(),
    {
        broadcast use vstd::std_specs::slice::axiom_spec_slice_iter;

        self.0.as_slice().iter()
    }

    pub fn len(&self) -> (n: usize)
        ensures
            n == self@.len(),
    {
        self.0.len()
    }

    pub fn is_empty(&self) -> (r: bool)
        ensures
            r == (self@.len() == 0),
    {
        self.0.len() == 0
    }

    /// The one at place `i`.
    pub fn get(&self, i: usize) -> (r: EntityId)
        requires
            i < self@.len(),
        ensures
            r == self@[i as int],
    {
        self.0[i]
    }
}

impl View for EdgePaths {
    type V = Seq<EntityId>;

    closed spec fn view(&self) -> Seq<EntityId> {
        self.0@
    }
}

impl Default for EdgePaths {
    fn default() -> (r: Self)
        ensures
            r@ == Seq::<EntityId>::empty(),
    {
        EdgePaths(Vec::new())
    }
}

impl EdgePaths {
    pub fn new(paths: Vec<EntityId>) -> (r: Self)
        ensures
            r@ == paths@,
    {
        EdgePaths(paths)
    }

    /// Walks through the paths in order.
    pub fn iter(&self) -> (r: Iter<'_, EntityId>)
        ensures
            r.remaining() == self@.as_ref(),
    {
        broadcast use vstd::std_specs::slice::axiom_spec_slice_iter;

        self.0.as_slice().iter()
    }

    pub fn len(&self) -> (n: usize)
        ensures
            n == self@.len(),
    {
        self.0.len()
    }

    pub fn is_empty(&self) -> (r: bool)
        ensures
            r == (self@.len() == 0),
    {
        self.0.len() == 0
    }

    /// The one at place `i`.
    pub fn get(&self, i: usize) -> (r: EntityId)
        requires
            i < self@.len(),
        ensures
            r == self@[i as int],
    {
        self.0[i]
    }
}

} // verus!
