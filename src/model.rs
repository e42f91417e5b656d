use vstd::prelude::*;

verus! {

/// A positioned node of the input. Coordinates are fixed-point integers: the
/// caller chooses the unit (for instance thousandths), and edge weights come out
/// in that same unit.
pub struct Node {
    pub n_id: usize,
    pub x: i32,
    pub y: i32,
    pub name: String,
    pub group: String,
    /// `0` marks a destination; any other value marks a plain waypoint.
    pub is_path: i8,
}

/// An undirected edge between two node ids. Its weight is derived from the
/// endpoints' coordinates when the adjacency matrix is built.
#[derive(PartialEq, Eq, Structural, Clone, Copy, Debug)]
pub struct Edge {
    pub source: usize,
    pub dest: usize,
}

/// A tag attached to a node; carried through untouched for persistence.
pub struct NodeTags {
    pub n_id: usize,
    pub tag: String,
}

/// A computed route: the node ids from source to destination inclusive (empty
/// when both are the same node), and the total weight along it.
pub struct ShortestPath {
    pub points: Vec<usize>,
    pub dist: u128,
}

/// Why a graph could not be built from its input.
#[derive(PartialEq, Eq, Structural, Clone, Copy, Debug)]
pub enum GraphError {
    /// A node's id is not below the number of nodes.
    NodeIdOutOfRange(usize),
    /// Two nodes carry the same id.
    DuplicateNodeId(usize),
    /// An edge names an id that no node carries.
    UnknownNodeReference(usize),
}

/// Whether a node is eligible as a query target.
pub open spec fn is_destination(n: Node) -> bool {
    n.is_path == 0
}

impl Node {
    /// Whether this node is eligible as a query target.
    pub fn is_destination(&self) -> (r: bool)
        ensures
            r == is_destination(*self),
    {
        self.is_path == 0
    }
}

impl ShortestPath {
    /// Builds a path from its points and total weight.
    pub fn new(points: Vec<usize>, dist: u128) -> (r: Self)
        ensures
            r.points@ == points@,
            r.dist == dist,
    {
        ShortestPath { points, dist }
    }

    /// The path from a node to itself: no points and no weight.
    pub fn empty() -> (r: Self)
        ensures
            r.points@ == Seq::<usize>::empty(),
            r.dist == 0,
    {
        ShortestPath { points: Vec::new(), dist: 0 }
    }
}

} // verus!
